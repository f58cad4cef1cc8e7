//! The cycle search engine: depth-bounded, memoized exploration of the pool
//! graph from a root token, exact multiplication of fee-adjusted prices,
//! liquidity-based pruning, and ranking of the discovered cycles.

use vstd::prelude::*;
use crate::dec::{
    be_val, dec_from_u64, dec_ge, dec_ge_spec, dec_is_zero, dec_mul, dec_zero, digits_ok,
    fixed5_of, format_5dp, pow10, Dec, SC_LIMIT,
};
use crate::pool::{
    clone_pool, effective_balance_num, effective_balance_sc, norm_balance, other_token_id, Pool,
};
use crate::token::Token;

verus! {

/// The search's tunables: how many pools a path may use, and the notional
/// amount of the root asset a trade is sized at.
pub struct SearchConfig {
    pub max_depth: usize,
    pub min_root_amount: u64,
}

impl SearchConfig {
    /// The stock configuration: paths of at most twenty pools, trades sized
    /// at one hundred thousand units of the root asset.
    pub fn standard() -> (r: SearchConfig)
        ensures
            r.max_depth == 20,
            r.min_root_amount == 100000,
    {
        SearchConfig { max_depth: 20, min_root_amount: 100000 }
    }
}

impl Default for SearchConfig {
    /// The stock configuration, as [`SearchConfig::standard`].
    fn default() -> (r: SearchConfig)
        ensures
            r.max_depth == 20,
            r.min_root_amount == 100000,
    {
        SearchConfig::standard()
    }
}

/// A closed walk of pools from the root token back to itself, with the
/// cumulative fee-adjusted price multiplier the walk achieves.
pub struct Cycle {
    pub root_token: String,
    pub pools: Vec<Pool>,
    pub max_price: Dec,
}

/// One memoized `(pool, token)` state: the best continuation price and the
/// pool path achieving it.
pub struct MemoEntry {
    pub pool_id: String,
    pub token_id: String,
    pub price: Dec,
    pub path: Vec<Pool>,
}

/// The per-run memo table, keyed by `(pool id, token id)`.
pub struct Memo {
    pub entries: Vec<MemoEntry>,
}

impl Memo {
    /// Some entry carries this key.
    pub open spec fn contains_key(self, p: Seq<char>, t: Seq<char>) -> bool {
        exists|i: int|
            0 <= i < self.entries@.len() && self.entries@[i].pool_id@ == p
                && self.entries@[i].token_id@ == t
    }

    /// No two entries share a key.
    pub open spec fn keys_distinct(self) -> bool {
        forall|i: int, j: int|
            0 <= i < j < self.entries@.len() ==> !(self.entries@[i].pool_id@
                == self.entries@[j].pool_id@ && self.entries@[i].token_id@
                == self.entries@[j].token_id@)
    }

    /// The position of the entry carrying the key.
    pub open spec fn idx_of(self, p: Seq<char>, t: Seq<char>) -> int {
        choose|i: int|
            0 <= i < self.entries@.len() && self.entries@[i].pool_id@ == p
                && self.entries@[i].token_id@ == t
    }

    /// An empty table.
    pub fn new() -> (r: Memo)
        ensures
            r.entries@.len() == 0,
    {
        Memo { entries: Vec::new() }
    }

    /// The stored price and path for the key, copied out.
    pub fn get(&self, p: &String, t: &String) -> (r: Option<(Dec, Vec<Pool>)>)
        requires
            self.keys_distinct(),
        ensures
            r is Some <==> self.contains_key(p@, t@),
            r is Some ==> {
                let e = self.entries@[self.idx_of(p@, t@)];
                (r->Some_0).0.digits@ == e.price.digits@ && (r->Some_0).0.scale == e.price.scale
                    && (r->Some_0).1@ == e.path@
            },
    {
        let mut i: usize = 0;
        while i < self.entries.len()
            invariant
                i <= self.entries@.len(),
                self.keys_distinct(),
                forall|j: int|
                    0 <= j < i ==> !(self.entries@[j].pool_id@ == p@ && self.entries@[j].token_id@
                        == t@),
            decreases self.entries@.len() - i,
        {
            let e = &self.entries[i];
            if e.pool_id == *p && e.token_id == *t {
                let price = clone_dec(&e.price);
                let path = clone_pools(&e.path);
                proof {
                    let k = self.idx_of(p@, t@);
                    assert(0 <= k < self.entries@.len() && self.entries@[k].pool_id@ == p@
                        && self.entries@[k].token_id@ == t@);
                    if k != i as int {
                        assert(false);
                    }
                }
                return Some((price, path));
            }
            i += 1;
        }
        None
    }

    /// Record a fresh key with its price and path.
    pub fn insert(&mut self, pool_id: String, token_id: String, price: Dec, path: Vec<Pool>)
        requires
            old(self).keys_distinct(),
            !old(self).contains_key(pool_id@, token_id@),
        ensures
            final(self).keys_distinct(),
            final(self).entries@ == old(self).entries@.push(
                MemoEntry { pool_id, token_id, price, path },
            ),
    {
        self.entries.push(MemoEntry { pool_id, token_id, price, path });
    }
}

/// A field-for-field copy of a decimal.
pub fn clone_dec(d: &Dec) -> (r: Dec)
    ensures
        r.digits@ == d.digits@,
        r.scale == d.scale,
{
    let mut digits: Vec<u8> = Vec::new();
    let mut i: usize = 0;
    while i < d.digits.len()
        invariant
            i <= d.digits@.len(),
            digits@ == d.digits@.take(i as int),
        decreases d.digits@.len() - i,
    {
        digits.push(d.digits[i]);
        proof {
            assert(d.digits@.take(i + 1) =~= d.digits@.take(i as int).push(d.digits@[i as int]));
        }
        i += 1;
    }
    proof {
        assert(d.digits@.take(d.digits@.len() as int) =~= d.digits@);
    }
    Dec { digits, scale: d.scale }
}

/// An element-for-element copy of a pool path.
pub fn clone_pools(v: &Vec<Pool>) -> (r: Vec<Pool>)
    ensures
        r@ == v@,
{
    let mut out: Vec<Pool> = Vec::new();
    let mut i: usize = 0;
    while i < v.len()
        invariant
            i <= v@.len(),
            out@ == v@.take(i as int),
        decreases v@.len() - i,
    {
        out.push(clone_pool(&v[i]));
        proof {
            assert(v@.take(i + 1) =~= v@.take(i as int).push(v@[i as int]));
        }
        i += 1;
    }
    proof {
        assert(v@.take(v@.len() as int) =~= v@);
    }
    out
}

/// Some pool of the path carries this identifier.
pub open spec fn path_has_id(path: Seq<Pool>, id: Seq<char>) -> bool {
    exists|i: int| 0 <= i < path.len() && path[i].id@ == id
}

/// Whether the path holds a pool with the given identifier.
pub fn path_has_pool_id(path: &Vec<Pool>, id: &String) -> (r: bool)
    ensures
        r == path_has_id(path@, id@),
{
    let mut i: usize = 0;
    while i < path.len()
        invariant
            i <= path@.len(),
            forall|j: int| 0 <= j < i ==> path@[j].id@ != id@,
        decreases path@.len() - i,
    {
        if path[i].id == *id {
            return true;
        }
        i += 1;
    }
    false
}

/// The pools of the snapshot containing the token, in snapshot order.
pub open spec fn adjacent_pools(pools: Seq<Pool>, t: Seq<char>) -> Seq<Pool> {
    pools.filter(|p: Pool| p.contains_token(t))
}

/// All pools containing the token — the pool graph accessor, answered from
/// the snapshot.
pub fn pools_for_token(pools: &Vec<Pool>, token_id: &String) -> (r: Vec<Pool>)
    ensures
        r@ == adjacent_pools(pools@, token_id@),
        forall|i: int|
            0 <= i < r@.len() ==> pools@.contains(#[trigger] r@[i]) && r@[i].contains_token(
                token_id@,
            ),
{
    let ghost pred = |p: Pool| p.contains_token(token_id@);
    let mut out: Vec<Pool> = Vec::new();
    let mut i: usize = 0;
    proof {
        reveal(Seq::filter);
        assert(pools@.take(0) =~= Seq::<Pool>::empty());
    }
    while i < pools.len()
        invariant
            i <= pools@.len(),
            out@ == pools@.take(i as int).filter(pred),
            pred == (|p: Pool| p.contains_token(token_id@)),
            forall|k: int|
                0 <= k < out@.len() ==> pools@.contains(#[trigger] out@[k])
                    && out@[k].contains_token(token_id@),
        decreases pools@.len() - i,
    {
        let p = &pools[i];
        let keep = p.token0_id == *token_id || p.token1_id == *token_id;
        proof {
            reveal(Seq::filter);
            assert(pools@.take(i + 1).drop_last() =~= pools@.take(i as int));
            assert(pools@.take(i + 1).last() == pools@[i as int]);
        }
        if keep {
            out.push(clone_pool(p));
        }
        i += 1;
    }
    proof {
        assert(pools@.take(pools@.len() as int) =~= pools@);
    }
    out
}

/// The walk through the path, starting at `t`, steps through a token of each
/// pool and ends back at `root`.
pub open spec fn walk_closes(root: Seq<char>, t: Seq<char>, path: Seq<Pool>) -> bool
    decreases path.len(),
{
    if path.len() == 0 {
        t == root
    } else {
        path[0].contains_token(t) && walk_closes(root, path[0].other_token_spec(t), path.drop_first())
    }
}

/// Mantissa of the product of the fee-adjusted prices along the path,
/// starting with `t`.
pub open spec fn path_price_num(t: Seq<char>, path: Seq<Pool>) -> nat
    decreases path.len(),
{
    if path.len() == 0 {
        1
    } else {
        path[0].fee_price_num(t) * path_price_num(path[0].other_token_spec(t), path.drop_first())
    }
}

/// Scale of the product of the fee-adjusted prices along the path.
pub open spec fn path_price_sc(t: Seq<char>, path: Seq<Pool>) -> nat
    decreases path.len(),
{
    if path.len() == 0 {
        0
    } else {
        path[0].fee_price_sc(t) + path_price_sc(path[0].other_token_spec(t), path.drop_first())
    }
}

/// No two neighbouring pools of the path share an identifier.
pub open spec fn adj_distinct(path: Seq<Pool>) -> bool {
    forall|i: int| 0 <= i < path.len() - 1 ==> (#[trigger] path[i]).id@ != path[i + 1].id@
}

/// No two pools of the path share an identifier.
pub open spec fn ids_distinct(path: Seq<Pool>) -> bool {
    forall|i: int, j: int| 0 <= i < j < path.len() ==> path[i].id@ != path[j].id@
}

/// Every pool of the path comes from the snapshot.
pub open spec fn all_from(path: Seq<Pool>, pools: Seq<Pool>) -> bool {
    forall|i: int| 0 <= i < path.len() ==> pools.contains(#[trigger] path[i])
}

/// Every pool of the snapshot is well formed.
pub open spec fn pools_wf(pools: Seq<Pool>) -> bool {
    forall|i: int| 0 <= i < pools.len() ==> (#[trigger] pools[i]).wf()
}

/// No two pools of the snapshot share an identifier.
pub open spec fn pool_ids_distinct(pools: Seq<Pool>) -> bool {
    forall|i: int, j: int| 0 <= i < j < pools.len() ==> pools[i].id@ != pools[j].id@
}

/// The state closes the loop: the trader no longer holds the root, the pool
/// touches the root, and the walk is past its first pool.
pub open spec fn close_cond(p: Pool, t: Seq<char>, root: Seq<char>, path_len: nat) -> bool {
    t != root && p.contains_token(root) && path_len > 1
}

/// What holds of a search result — mantissa digits `d`, scale `sc`, and pool
/// path — for the state "holding `t`, about to route it through the pool
/// with id `pid`": the path starts at that pool, walks back to the root, never
/// repeats a pool in adjacent steps, stays inside the snapshot, and a positive
/// multiplier is exactly the product of the fee-adjusted prices along it.
pub open spec fn result_inv(
    pools: Seq<Pool>,
    root: Seq<char>,
    t: Seq<char>,
    pid: Seq<char>,
    d: Seq<u8>,
    sc: nat,
    path: Seq<Pool>,
) -> bool {
    &&& digits_ok(d)
    &&& sc <= SC_LIMIT
    &&& (be_val(d) > 0 ==> path.len() > 0)
    &&& (path.len() > 0 ==> path[0].id@ == pid)
    &&& (path.len() > 0 ==> walk_closes(root, t, path))
    &&& (path.len() > 0 ==> adj_distinct(path))
    &&& (path.len() > 0 ==> all_from(path, pools))
    &&& (be_val(d) > 0 ==> be_val(d) == path_price_num(t, path) && sc == path_price_sc(t, path))
}

/// Zero effective reserve prunes: a pool holding none of `t` supports no
/// positive multiplier through that state.
pub open spec fn gate_pruned(p: Pool, t: Seq<char>, tokens: Seq<Token>, d: Seq<u8>) -> bool {
    effective_balance_num(p, p.token0_id@ == t, tokens) == 0 ==> be_val(d) == 0
}

/// The liquidity gate fires against an empty reserve whatever the sized
/// trade: a zero balance never admits a trade, so such a state's multiplier
/// is forced to zero.
pub proof fn lemma_zero_balance_gate(required: Dec, balance: Dec)
    requires
        balance.num() == 0,
    ensures
        dec_ge_spec(required, balance),
{
    assert(balance.num() * pow10(required.sc()) == 0);
}

/// Every memo entry records a sound result for its key, computed under the
/// liquidity gate.
pub open spec fn entry_inv(e: MemoEntry, pools: Seq<Pool>, tokens: Seq<Token>, root: Seq<char>) -> bool {
    &&& result_inv(pools, root, e.token_id@, e.pool_id@, e.price.digits@, e.price.sc(), e.path@)
    &&& (e.price.num() == 0 ==> e.path@.len() == 0)
    &&& exists|pi: int|
        #![auto]
        0 <= pi < pools.len() && pools[pi].id@ == e.pool_id@ && gate_pruned(
            pools[pi],
            e.token_id@,
            tokens,
            e.price.digits@,
        )
}

/// The entry's key pairs a pool of the snapshot with one of its two sides.
pub open spec fn key_from_pools(e: MemoEntry, pools: Seq<Pool>) -> bool {
    exists|pi: int|
        #![auto]
        0 <= pi < pools.len() && pools[pi].id@ == e.pool_id@ && (e.token_id@
            == pools[pi].token0_id@ || e.token_id@ == pools[pi].token1_id@)
}

/// The memo table invariant: distinct keys, sound entries, and stored paths
/// whose length is bounded by the depth limit plus twice the entry's
/// position — later entries may glue earlier stored paths, growing by one
/// pool per new entry.
pub open spec fn memo_wf(
    m: Memo,
    pools: Seq<Pool>,
    tokens: Seq<Token>,
    root: Seq<char>,
    maxd: nat,
) -> bool {
    &&& m.keys_distinct()
    &&& forall|i: int|
        0 <= i < m.entries@.len() ==> entry_inv(#[trigger] m.entries@[i], pools, tokens, root)
    &&& forall|i: int|
        0 <= i < m.entries@.len() ==> key_from_pools(#[trigger] m.entries@[i], pools)
    &&& forall|i: int|
        0 <= i < m.entries@.len() ==> (#[trigger] m.entries@[i]).path@.len() <= maxd + 2 + 2 * i
}

spec fn entry_code(m: Memo, pools: Seq<Pool>, i: int) -> int {
    let pi = choose|pi: int| 0 <= pi < pools.len() && pools[pi].id@ == m.entries@[i].pool_id@;
    if m.entries@[i].token_id@ == pools[pi].token0_id@ {
        2 * pi
    } else {
        2 * pi + 1
    }
}

/// The memo never outgrows the state space: at most two entries per pool of
/// the snapshot, one per side.
pub proof fn lemma_memo_len_bound(
    m: Memo,
    pools: Seq<Pool>,
    tokens: Seq<Token>,
    root: Seq<char>,
    maxd: nat,
)
    requires
        memo_wf(m, pools, tokens, root, maxd),
        pool_ids_distinct(pools),
    ensures
        m.entries@.len() <= 2 * pools.len(),
{
    let n = m.entries@.len() as int;
    let codes = Seq::new(n as nat, |i: int| entry_code(m, pools, i));
    assert forall|i: int| 0 <= i < n implies 0 <= #[trigger] codes[i] < 2 * pools.len() by {
        assert(key_from_pools(m.entries@[i], pools));
        let pi = choose|pi: int| 0 <= pi < pools.len() && pools[pi].id@ == m.entries@[i].pool_id@;
        assert(0 <= pi < pools.len());
    }
    assert forall|i: int, j: int|
        0 <= i < n && 0 <= j < n && i != j implies codes[i] != codes[j] by {
        assert(key_from_pools(m.entries@[i], pools));
        assert(key_from_pools(m.entries@[j], pools));
        let pi = choose|pi: int| 0 <= pi < pools.len() && pools[pi].id@ == m.entries@[i].pool_id@;
        let pj = choose|pj: int| 0 <= pj < pools.len() && pools[pj].id@ == m.entries@[j].pool_id@;
        if codes[i] == codes[j] {
            assert(pi == pj);
            assert(m.entries@[i].pool_id@ == m.entries@[j].pool_id@);
            assert(m.entries@[i].token_id@ == m.entries@[j].token_id@);
        }
    }
    assert(codes.no_duplicates());
    codes.unique_seq_to_set();
    vstd::set_lib::lemma_int_range(0, 2 * pools.len() as int);
    vstd::set_lib::lemma_len_subset(
        codes.to_set(),
        vstd::set_lib::set_int_range(0, 2 * pools.len() as int),
    );
}

/// The price a closing hop returns: the pool's fee-adjusted price, or zero
/// where its scale lies beyond [`SC_LIMIT`].
pub open spec fn close_price_ok(p: Pool, t: Seq<char>, d: Dec) -> bool {
    if p.fee_price_sc(t) <= SC_LIMIT {
        d.num() == p.fee_price_num(t) && d.sc() == p.fee_price_sc(t)
    } else {
        d.num() == 0
    }
}

/// The abstract content of one memo entry: its key, and the stored
/// multiplier (mantissa and scale) with its path.
#[verifier::ext_equal]
pub struct SpecEntry {
    pub pool_id: Seq<char>,
    pub token_id: Seq<char>,
    pub num: nat,
    pub sc: nat,
    pub path: Seq<Pool>,
}

/// The abstract result of one search step: the multiplier's mantissa and
/// scale, and the pool path achieving it.
#[verifier::ext_equal]
pub struct SpecResult {
    pub num: nat,
    pub sc: nat,
    pub path: Seq<Pool>,
}

impl Memo {
    /// The table's abstract content, entry by entry.
    pub open spec fn model(self) -> Seq<SpecEntry> {
        Seq::new(
            self.entries@.len(),
            |i: int|
                SpecEntry {
                    pool_id: self.entries@[i].pool_id@,
                    token_id: self.entries@[i].token_id@,
                    num: self.entries@[i].price.num(),
                    sc: self.entries@[i].price.sc(),
                    path: self.entries@[i].path@,
                },
        )
    }
}

/// Some abstract entry carries this key.
pub open spec fn spec_memo_has(m: Seq<SpecEntry>, p: Seq<char>, t: Seq<char>) -> bool {
    exists|i: int| 0 <= i < m.len() && m[i].pool_id == p && m[i].token_id == t
}

/// The stored result for the key.
pub open spec fn spec_memo_at(m: Seq<SpecEntry>, p: Seq<char>, t: Seq<char>) -> SpecResult {
    let i = choose|i: int| 0 <= i < m.len() && m[i].pool_id == p && m[i].token_id == t;
    SpecResult { num: m[i].num, sc: m[i].sc, path: m[i].path }
}

/// `a >= b` on the denoted multiplier values, by cross-multiplying.
pub open spec fn spec_res_ge(a: SpecResult, b: SpecResult) -> bool {
    a.num * pow10(b.sc) >= b.num * pow10(a.sc)
}

/// The result of zero: no multiplier, no route.
pub open spec fn spec_zero_res() -> SpecResult {
    SpecResult { num: 0, sc: 0, path: Seq::empty() }
}

/// What a closing hop yields: the pool's exact fee-adjusted price — zeroed
/// beyond [`SC_LIMIT`] — over the path of that one pool.
pub open spec fn spec_close_res(p: Pool, t: Seq<char>) -> SpecResult {
    if p.fee_price_sc(t) <= SC_LIMIT {
        SpecResult { num: p.fee_price_num(t), sc: p.fee_price_sc(t), path: seq![p] }
    } else {
        SpecResult { num: 0, sc: 0, path: seq![p] }
    }
}

/// The liquidity gate and path assembly over the best continuation: zero if
/// the trade sized at `minroot` would reach the pool's effective reserve of
/// `t` (or an exactness guard trips); otherwise the continuation times the
/// pool's fee-adjusted price, with the pool prepended to the continuation's
/// path exactly when the multiplier is positive.
pub open spec fn spec_gate_res(
    p: Pool,
    t: Seq<char>,
    tokens: Seq<Token>,
    minroot: nat,
    best: SpecResult,
) -> SpecResult {
    let bal_num = effective_balance_num(p, p.token0_id@ == t, tokens);
    let bal_sc = effective_balance_sc(p, p.token0_id@ == t, tokens);
    if (best.num * minroot) * pow10(bal_sc) >= bal_num * pow10(best.sc) {
        spec_zero_res()
    } else {
        let fpn = p.fee_price_num(t);
        let fps = p.fee_price_sc(t);
        if fps > SC_LIMIT {
            spec_zero_res()
        } else if best.sc + fps > SC_LIMIT {
            spec_zero_res()
        } else {
            let n2 = best.num * fpn;
            SpecResult {
                num: n2,
                sc: best.sc + fps,
                path: if n2 > 0 {
                    seq![p] + best.path
                } else {
                    Seq::empty()
                },
            }
        }
    }
}

/// The exact recursive contract of the search engine, mirroring its steps:
/// depth cutoff, cycle close, memo answer, and otherwise expansion over the
/// pools of the other token, best continuation, liquidity gate, path
/// assembly, and memoization of the result.
pub open spec fn spec_explore(
    pools: Seq<Pool>,
    tokens: Seq<Token>,
    maxd: nat,
    minroot: nat,
    root: Seq<char>,
    memo: Seq<SpecEntry>,
    cur_pool: Pool,
    cur_token: Seq<char>,
    cur_path: Seq<Pool>,
) -> (Seq<SpecEntry>, SpecResult)
    decreases maxd + 1 - cur_path.len(), pools.len() + 1,
{
    if cur_path.len() > maxd {
        (memo, spec_zero_res())
    } else if close_cond(cur_pool, cur_token, root, cur_path.len()) {
        (memo, spec_close_res(cur_pool, cur_token))
    } else if spec_memo_has(memo, cur_pool.id@, cur_token) {
        (memo, spec_memo_at(memo, cur_pool.id@, cur_token))
    } else {
        let next = cur_pool.other_token_spec(cur_token);
        let o = spec_explore_list(
            pools,
            tokens,
            maxd,
            minroot,
            root,
            memo,
            cur_pool.id@,
            next,
            cur_path,
            adjacent_pools(pools, next),
            spec_zero_res(),
        );
        let res = spec_gate_res(cur_pool, cur_token, tokens, minroot, o.1);
        (
            o.0.push(
                SpecEntry {
                    pool_id: cur_pool.id@,
                    token_id: cur_token,
                    num: res.num,
                    sc: res.sc,
                    path: res.path,
                },
            ),
            res,
        )
    }
}

/// The fold over the candidate pools: each candidate that is neither the
/// current pool nor already on the path is explored one step deeper, and the
/// best (largest-multiplier, later ties win) result is kept.
pub open spec fn spec_explore_list(
    pools: Seq<Pool>,
    tokens: Seq<Token>,
    maxd: nat,
    minroot: nat,
    root: Seq<char>,
    memo: Seq<SpecEntry>,
    cur_id: Seq<char>,
    next: Seq<char>,
    cur_path: Seq<Pool>,
    cands: Seq<Pool>,
    best: SpecResult,
) -> (Seq<SpecEntry>, SpecResult)
    decreases maxd + 1 - cur_path.len(), cands.len(),
{
    if cands.len() == 0 || cur_path.len() > maxd {
        (memo, best)
    } else {
        let cand = cands[0];
        if cand.id@ != cur_id && !path_has_id(cur_path, cand.id@) {
            let o = spec_explore(
                pools,
                tokens,
                maxd,
                minroot,
                root,
                memo,
                cand,
                next,
                cur_path.push(cand),
            );
            let b1 = if spec_res_ge(o.1, best) {
                o.1
            } else {
                best
            };
            spec_explore_list(
                pools,
                tokens,
                maxd,
                minroot,
                root,
                o.0,
                cur_id,
                next,
                cur_path,
                cands.drop_first(),
                b1,
            )
        } else {
            spec_explore_list(
                pools,
                tokens,
                maxd,
                minroot,
                root,
                memo,
                cur_id,
                next,
                cur_path,
                cands.drop_first(),
                best,
            )
        }
    }
}

/// The executable search returns exactly what [`spec_explore`] defines for
/// its arguments, and leaves the memo in exactly the model's state.
pub open spec fn explore_post(
    pools: Seq<Pool>,
    tokens: Seq<Token>,
    maxd: nat,
    minroot: nat,
    root: Seq<char>,
    memo0: Seq<SpecEntry>,
    cur_pool: Pool,
    cur_token: Seq<char>,
    cur_path: Seq<Pool>,
    memo1: Seq<SpecEntry>,
    d: Seq<u8>,
    sc: nat,
    path: Seq<Pool>,
) -> bool {
    let o = spec_explore(pools, tokens, maxd, minroot, root, memo0, cur_pool, cur_token, cur_path);
    memo1 == o.0 && be_val(d) == o.1.num && sc == o.1.sc && path == o.1.path
}

proof fn lemma_memo_model_has(m: Memo, p: Seq<char>, t: Seq<char>)
    ensures
        m.contains_key(p, t) == spec_memo_has(m.model(), p, t),
{
    if m.contains_key(p, t) {
        let i = choose|i: int|
            0 <= i < m.entries@.len() && m.entries@[i].pool_id@ == p && m.entries@[i].token_id@
                == t;
        assert(m.model()[i].pool_id == p && m.model()[i].token_id == t);
    }
    if spec_memo_has(m.model(), p, t) {
        let i = choose|i: int|
            0 <= i < m.model().len() && m.model()[i].pool_id == p && m.model()[i].token_id == t;
        assert(m.entries@[i].pool_id@ == p && m.entries@[i].token_id@ == t);
    }
}

proof fn lemma_memo_model_at(m: Memo, p: Seq<char>, t: Seq<char>)
    requires
        m.keys_distinct(),
        m.contains_key(p, t),
    ensures
        spec_memo_at(m.model(), p, t) == (SpecResult {
            num: m.entries@[m.idx_of(p, t)].price.num(),
            sc: m.entries@[m.idx_of(p, t)].price.sc(),
            path: m.entries@[m.idx_of(p, t)].path@,
        }),
{
    let i = m.idx_of(p, t);
    assert(0 <= i < m.entries@.len() && m.entries@[i].pool_id@ == p && m.entries@[i].token_id@
        == t);
    lemma_memo_model_has(m, p, t);
    let j = choose|j: int|
        0 <= j < m.model().len() && m.model()[j].pool_id == p && m.model()[j].token_id == t;
    assert(m.entries@[j].pool_id@ == p && m.entries@[j].token_id@ == t);
    if i != j {
        assert(false);
    }
}

proof fn lemma_pool_by_id(pools: Seq<Pool>, p: Pool, pi: int)
    requires
        pool_ids_distinct(pools),
        pools.contains(p),
        0 <= pi < pools.len(),
        pools[pi].id@ == p.id@,
    ensures
        pools[pi] == p,
{
    let j = choose|j: int| 0 <= j < pools.len() && pools[j] == p;
}

impl Cycle {
    /// The route the cycle renders to: token, fee tier, token, fee tier, ...,
    /// token, starting from the root.
    pub fn router_path(&self) -> (r: Vec<String>)
        ensures
            r.deep_view() == spec_router_path(self.root_token@, self.pools@),
    {
        let mut cur_token: String = self.root_token.clone();
        let mut path: Vec<String> = Vec::new();
        let mut i: usize = 0;
        proof {
            assert(self.pools@.skip(0) =~= self.pools@);
            assert(path.deep_view() =~= Seq::<Seq<char>>::empty());
        }
        while i < self.pools.len()
            invariant
                i <= self.pools@.len(),
                spec_router_path(self.root_token@, self.pools@) == path.deep_view()
                    + spec_router_path(cur_token@, self.pools@.skip(i as int)),
            decreases self.pools@.len() - i,
        {
            let pool = &self.pools[i];
            let next_token = other_token_id(pool, &cur_token);
            let ghost before = path.deep_view();
            let ghost cur_v = cur_token@;
            let ghost fee_v = pool.fee_tier@;
            path.push(cur_token);
            proof {
                assert(path.deep_view() =~= before.push(cur_v));
            }
            let ghost mid = path.deep_view();
            path.push(pool.fee_tier.clone());
            proof {
                assert(path.deep_view() =~= mid.push(fee_v));
                let rest = self.pools@.skip(i as int);
                assert(rest[0] == self.pools@[i as int]);
                assert(rest.drop_first() =~= self.pools@.skip(i + 1));
                assert(next_token@ == rest[0].other_token_spec(cur_v));
                assert(before.push(cur_v).push(fee_v) =~= before + seq![cur_v, fee_v]);
                assert((before + seq![cur_v, fee_v]) + spec_router_path(
                    next_token@,
                    rest.drop_first(),
                ) =~= before + (seq![cur_v, fee_v] + spec_router_path(
                    next_token@,
                    rest.drop_first(),
                )));
            }
            cur_token = next_token;
            i += 1;
        }
        let ghost before = path.deep_view();
        let ghost cur_v = cur_token@;
        path.push(cur_token);
        proof {
            assert(self.pools@.skip(i as int).len() == 0);
            assert(path.deep_view() =~= before.push(cur_v));
            assert(before + spec_router_path(cur_v, self.pools@.skip(i as int)) =~= before.push(
                cur_v,
            ));
        }
        path
    }
}

/// The rendered route for a walk beginning at `t`.
pub open spec fn spec_router_path(t: Seq<char>, path: Seq<Pool>) -> Seq<Seq<char>>
    decreases path.len(),
{
    if path.len() == 0 {
        seq![t]
    } else {
        seq![t, path[0].fee_tier@] + spec_router_path(
            path[0].other_token_spec(t),
            path.drop_first(),
        )
    }
}

/// Explore every candidate pool of the other token that is neither the
/// current pool nor already on the path, and keep the best continuation:
/// the executable form of [`spec_explore_list`], which its contract tracks
/// exactly.
#[verifier::rlimit(100)]
fn explore_candidates(
    pools: &Vec<Pool>,
    tokens: &Vec<Token>,
    cfg: &SearchConfig,
    memo: &mut Memo,
    root_token_id: &String,
    cur_pool: &Pool,
    cur_token_id: &String,
    cur_path: &Vec<Pool>,
    next_token: &String,
    candidates: &Vec<Pool>,
) -> (best: (Dec, Vec<Pool>))
    requires
        pools_wf(pools@),
        pool_ids_distinct(pools@),
        pools@.contains(*cur_pool),
        cur_pool.contains_token(cur_token_id@),
        cur_path@.len() >= 1,
        cur_path@.len() <= cfg.max_depth,
        cur_path@.last() == *cur_pool,
        ids_distinct(cur_path@),
        next_token@ == cur_pool.other_token_spec(cur_token_id@),
        candidates@ == adjacent_pools(pools@, next_token@),
        forall|i: int|
            0 <= i < candidates@.len() ==> pools@.contains(#[trigger] candidates@[i])
                && candidates@[i].contains_token(next_token@),
        memo_wf(*old(memo), pools@, tokens@, root_token_id@, cfg.max_depth as nat),
        !old(memo).contains_key(cur_pool.id@, cur_token_id@),
    ensures
        memo_wf(*final(memo), pools@, tokens@, root_token_id@, cfg.max_depth as nat),
        old(memo).entries@.len() <= final(memo).entries@.len(),
        forall|i: int|
            0 <= i < old(memo).entries@.len() ==> final(memo).entries@[i] == old(memo).entries@[i],
        forall|i: int|
            old(memo).entries@.len() <= i < final(memo).entries@.len() ==> !path_has_id(
                cur_path@,
                (#[trigger] final(memo).entries@[i]).pool_id@,
            ),
        !final(memo).contains_key(cur_pool.id@, cur_token_id@),
        digits_ok(best.0.digits@),
        best.0.sc() <= SC_LIMIT,
        best.0.num() > 0 ==> best.1@.len() > 0,
        best.1@.len() > 0 ==> best.1@[0].id@ != cur_pool.id@,
        best.1@.len() > 0 ==> walk_closes(root_token_id@, next_token@, best.1@),
        best.1@.len() > 0 ==> adj_distinct(best.1@),
        best.1@.len() > 0 ==> all_from(best.1@, pools@),
        best.1@.len() <= cfg.max_depth + 1 + 2 * final(memo).entries@.len(),
        best.0.num() > 0 ==> best.0.num() == path_price_num(next_token@, best.1@) && best.0.sc()
            == path_price_sc(next_token@, best.1@),
        spec_explore_list(
            pools@,
            tokens@,
            cfg.max_depth as nat,
            cfg.min_root_amount as nat,
            root_token_id@,
            old(memo).model(),
            cur_pool.id@,
            next_token@,
            cur_path@,
            candidates@,
            spec_zero_res(),
        ) == (
            final(memo).model(),
            SpecResult { num: best.0.num(), sc: best.0.sc(), path: best.1@ },
        ),
    decreases cfg.max_depth + 1 - cur_path@.len(), 0int,
{
    let ghost maxd = cfg.max_depth as nat;
    let ghost minroot = cfg.min_root_amount as nat;
    let ghost full_list = spec_explore_list(
        pools@,
        tokens@,
        maxd,
        minroot,
        root_token_id@,
        old(memo).model(),
        cur_pool.id@,
        next_token@,
        cur_path@,
        candidates@,
        spec_zero_res(),
    );
    let mut best_price = dec_zero();
    let mut best_path: Vec<Pool> = Vec::new();
    let mut ci: usize = 0;
    proof {
        assert(path_has_id(cur_path@, cur_pool.id@)) by {
            assert(cur_path@[cur_path@.len() - 1].id@ == cur_pool.id@);
        }
        assert(candidates@.skip(0) =~= candidates@);
        assert(SpecResult { num: best_price.num(), sc: best_price.sc(), path: best_path@ }
            =~= spec_zero_res());
    }
    while ci < candidates.len()
        invariant
            pools_wf(pools@),
            pool_ids_distinct(pools@),
            pools@.contains(*cur_pool),
            cur_pool.contains_token(cur_token_id@),
            cur_path@.len() >= 1,
            cur_path@.len() <= cfg.max_depth,
            cur_path@.last() == *cur_pool,
            ids_distinct(cur_path@),
            path_has_id(cur_path@, cur_pool.id@),
            next_token@ == cur_pool.other_token_spec(cur_token_id@),
            ci <= candidates@.len(),
            maxd == cfg.max_depth as nat,
            minroot == cfg.min_root_amount as nat,
            full_list == spec_explore_list(
                pools@,
                tokens@,
                maxd,
                minroot,
                root_token_id@,
                old(memo).model(),
                cur_pool.id@,
                next_token@,
                cur_path@,
                candidates@,
                spec_zero_res(),
            ),
            forall|i: int|
                0 <= i < candidates@.len() ==> pools@.contains(#[trigger] candidates@[i])
                    && candidates@[i].contains_token(next_token@),
            memo_wf(*memo, pools@, tokens@, root_token_id@, cfg.max_depth as nat),
            old(memo).entries@.len() <= memo.entries@.len(),
            forall|i: int|
                0 <= i < old(memo).entries@.len() ==> memo.entries@[i] == old(memo).entries@[i],
            forall|i: int|
                old(memo).entries@.len() <= i < memo.entries@.len() ==> !path_has_id(
                    cur_path@,
                    (#[trigger] memo.entries@[i]).pool_id@,
                ),
            !memo.contains_key(cur_pool.id@, cur_token_id@),
            digits_ok(best_price.digits@),
            best_price.sc() <= SC_LIMIT,
            best_price.num() > 0 ==> best_path@.len() > 0,
            best_path@.len() > 0 ==> best_path@[0].id@ != cur_pool.id@,
            best_path@.len() > 0 ==> walk_closes(root_token_id@, next_token@, best_path@),
            best_path@.len() > 0 ==> adj_distinct(best_path@),
            best_path@.len() > 0 ==> all_from(best_path@, pools@),
            best_path@.len() <= cfg.max_depth + 1 + 2 * memo.entries@.len(),
            best_price.num() > 0 ==> best_price.num() == path_price_num(next_token@, best_path@)
                && best_price.sc() == path_price_sc(next_token@, best_path@),
            spec_explore_list(
                pools@,
                tokens@,
                maxd,
                minroot,
                root_token_id@,
                memo.model(),
                cur_pool.id@,
                next_token@,
                cur_path@,
                candidates@.skip(ci as int),
                SpecResult { num: best_price.num(), sc: best_price.sc(), path: best_path@ },
            ) == full_list,
        decreases candidates@.len() - ci,
    {
        let ghost rest = candidates@.skip(ci as int);
        proof {
            assert(rest[0] == candidates@[ci as int]);
            assert(rest.drop_first() =~= candidates@.skip(ci as int + 1));
        }
        let cand = &candidates[ci];
        let same_as_cur = cand.id == cur_pool.id;
        if !same_as_cur && !path_has_pool_id(cur_path, &cand.id) {
            let mut new_path = clone_pools(cur_path);
            new_path.push(clone_pool(cand));
            proof {
                assert(pools@.contains(candidates@[ci as int]));
                assert(new_path@.last() == candidates@[ci as int]);
                assert(new_path@.drop_last() =~= cur_path@);
                assert(new_path@ =~= cur_path@.push(candidates@[ci as int]));
                assert(ids_distinct(new_path@)) by {
                    assert(forall|i: int|
                        0 <= i < cur_path@.len() ==> new_path@[i] == cur_path@[i]);
                }
            }
            let ghost memo_at_call = *memo;
            let ghost best_at_call = SpecResult {
                num: best_price.num(),
                sc: best_price.sc(),
                path: best_path@,
            };
            let (p, pp) = find_cycle(
                pools,
                tokens,
                cfg,
                memo,
                root_token_id,
                cand,
                &next_token,
                &new_path,
            );
            proof {
                // entries the child added avoid every pool of `cur_path`
                assert(forall|i: int|
                    memo_at_call.entries@.len() <= i < memo.entries@.len() ==> !path_has_id(
                        cur_path@,
                        (#[trigger] memo.entries@[i]).pool_id@,
                    ));
                assert(forall|i: int|
                    0 <= i < old(memo).entries@.len() ==> memo.entries@[i] == old(memo).entries@[i]);
                assert(!memo.contains_key(cur_pool.id@, cur_token_id@)) by {
                    assert(forall|i: int|
                        0 <= i < memo.entries@.len() && (#[trigger] memo.entries@[i]).pool_id@
                            == cur_pool.id@ ==> i < memo_at_call.entries@.len());
                }
                // the child followed the model from the state at the call
                let o = spec_explore(
                    pools@,
                    tokens@,
                    maxd,
                    minroot,
                    root_token_id@,
                    memo_at_call.model(),
                    candidates@[ci as int],
                    next_token@,
                    cur_path@.push(candidates@[ci as int]),
                );
                assert(o.0 == memo.model() && o.1.num == p.num() && o.1.sc == p.sc() && o.1.path
                    == pp@);
            }
            if dec_ge(&p, &best_price) {
                proof {
                    assert(spec_res_ge(
                        SpecResult { num: p.num(), sc: p.sc(), path: pp@ },
                        best_at_call,
                    ));
                }
                best_price = p;
                best_path = pp;
            } else {
                proof {
                    assert(!spec_res_ge(
                        SpecResult { num: p.num(), sc: p.sc(), path: pp@ },
                        best_at_call,
                    ));
                }
            }
            proof {
                assert(spec_explore_list(
                    pools@,
                    tokens@,
                    maxd,
                    minroot,
                    root_token_id@,
                    memo.model(),
                    cur_pool.id@,
                    next_token@,
                    cur_path@,
                    candidates@.skip(ci as int + 1),
                    SpecResult { num: best_price.num(), sc: best_price.sc(), path: best_path@ },
                ) == full_list);
            }
        } else {
            proof {
                assert(candidates@[ci as int].id@ == cur_pool.id@ || path_has_id(
                    cur_path@,
                    candidates@[ci as int].id@,
                ));
            }
        }
        ci += 1;
    }
    proof {
        assert(candidates@.skip(ci as int).len() == 0);
    }
    (best_price, best_path)
}

/// Finish one expansion: weigh the best continuation against the pool's
/// reserve at the configured notional, multiply in the pool's fee-adjusted
/// price, assemble the route exactly when the multiplier is positive, and
/// memoize the result — steps five to eight of the engine's recursive
/// contract, tracked exactly against the model.
#[verifier::rlimit(100)]
fn seal_state(
    pools: &Vec<Pool>,
    tokens: &Vec<Token>,
    cfg: &SearchConfig,
    memo: &mut Memo,
    root_token_id: &String,
    cur_pool: &Pool,
    cur_token_id: &String,
    cur_path: &Vec<Pool>,
    next_token: &String,
    best_price: Dec,
    best_path: Vec<Pool>,
    Ghost(m0): Ghost<Seq<SpecEntry>>,
) -> (r: (Dec, Vec<Pool>))
    requires
        pools_wf(pools@),
        pool_ids_distinct(pools@),
        pools@.contains(*cur_pool),
        cur_pool.contains_token(cur_token_id@),
        cur_path@.len() >= 1,
        cur_path@.len() <= cfg.max_depth,
        cur_path@.last() == *cur_pool,
        ids_distinct(cur_path@),
        next_token@ == cur_pool.other_token_spec(cur_token_id@),
        memo_wf(*old(memo), pools@, tokens@, root_token_id@, cfg.max_depth as nat),
        !old(memo).contains_key(cur_pool.id@, cur_token_id@),
        !close_cond(*cur_pool, cur_token_id@, root_token_id@, cur_path@.len() as nat),
        !spec_memo_has(m0, cur_pool.id@, cur_token_id@),
        digits_ok(best_price.digits@),
        best_price.sc() <= SC_LIMIT,
        best_price.num() > 0 ==> best_path@.len() > 0,
        best_path@.len() > 0 ==> best_path@[0].id@ != cur_pool.id@,
        best_path@.len() > 0 ==> walk_closes(root_token_id@, next_token@, best_path@),
        best_path@.len() > 0 ==> adj_distinct(best_path@),
        best_path@.len() > 0 ==> all_from(best_path@, pools@),
        best_path@.len() <= cfg.max_depth + 1 + 2 * old(memo).entries@.len(),
        best_price.num() > 0 ==> best_price.num() == path_price_num(next_token@, best_path@)
            && best_price.sc() == path_price_sc(next_token@, best_path@),
        spec_explore_list(
            pools@,
            tokens@,
            cfg.max_depth as nat,
            cfg.min_root_amount as nat,
            root_token_id@,
            m0,
            cur_pool.id@,
            next_token@,
            cur_path@,
            adjacent_pools(pools@, next_token@),
            spec_zero_res(),
        ) == (
            old(memo).model(),
            SpecResult { num: best_price.num(), sc: best_price.sc(), path: best_path@ },
        ),
    ensures
        memo_wf(*final(memo), pools@, tokens@, root_token_id@, cfg.max_depth as nat),
        final(memo).entries@.len() == old(memo).entries@.len() + 1,
        forall|i: int|
            0 <= i < old(memo).entries@.len() ==> final(memo).entries@[i] == old(memo).entries@[i],
        final(memo).entries@.last().pool_id@ == cur_pool.id@,
        final(memo).entries@.last().token_id@ == cur_token_id@,
        final(memo).entries@.last().price.digits@ == r.0.digits@,
        final(memo).entries@.last().price.scale == r.0.scale,
        final(memo).entries@.last().path@ == r.1@,
        result_inv(
            pools@,
            root_token_id@,
            cur_token_id@,
            cur_pool.id@,
            r.0.digits@,
            r.0.sc(),
            r.1@,
        ),
        r.1@.len() <= cfg.max_depth + 1 + 2 * final(memo).entries@.len(),
        effective_balance_num(*cur_pool, cur_pool.token0_id@ == cur_token_id@, tokens@) == 0
            ==> r.0.num() == 0,
        r.0.num() == 0 ==> r.1@.len() == 0,
        explore_post(
            pools@,
            tokens@,
            cfg.max_depth as nat,
            cfg.min_root_amount as nat,
            root_token_id@,
            m0,
            *cur_pool,
            cur_token_id@,
            cur_path@,
            final(memo).model(),
            r.0.digits@,
            r.0.sc(),
            r.1@,
        ),
{
    let ghost maxd = cfg.max_depth as nat;
    let ghost minroot = cfg.min_root_amount as nat;
    let ghost bp0 = best_path@;
    let ghost best_r = SpecResult { num: best_price.num(), sc: best_price.sc(), path: bp0 };
    let ghost res = spec_gate_res(*cur_pool, cur_token_id@, tokens@, minroot, best_r);
    let mut best_path = best_path;
    proof {
        assert(path_has_id(cur_path@, cur_pool.id@)) by {
            assert(cur_path@[cur_path@.len() - 1].id@ == cur_pool.id@);
        }
    }
    // the liquidity gate: a trade of the configured root notional must not
    // reach the pool's reserve of the token being routed
    let token0_side = cur_pool.is_token_0(cur_token_id);
    let balance = norm_balance(cur_pool, token0_side, tokens);
    let min_root = dec_from_u64(cfg.min_root_amount);
    let required = dec_mul(&best_price, &min_root);
    proof {
        assert(required.num() == best_r.num * minroot);
        assert(required.sc() == best_r.sc);
        assert(balance.num() == effective_balance_num(
            *cur_pool,
            cur_pool.token0_id@ == cur_token_id@,
            tokens@,
        ));
        assert(balance.sc() == effective_balance_sc(
            *cur_pool,
            cur_pool.token0_id@ == cur_token_id@,
            tokens@,
        ));
    }
    let mut cur_price: Dec;
    if dec_ge(&required, &balance) {
        cur_price = dec_zero();
    } else {
        proof {
            if balance.num() == 0 {
                lemma_zero_balance_gate(required, balance);
                assert(false);
            }
            assert(effective_balance_num(*cur_pool, cur_pool.token0_id@ == cur_token_id@, tokens@)
                > 0);
        }
        let fee_price = match cur_pool.fee_price_for(cur_token_id) {
            Ok(p) => p,
            Err(_) => {
                // every pool of the snapshot is well formed, so pricing
                // cannot fail here
                proof {
                    assert(false);
                }
                dec_zero()
            },
        };
        if fee_price.scale > SC_LIMIT {
            cur_price = dec_zero();
        } else {
            let prod = dec_mul(&best_price, &fee_price);
            if prod.scale > SC_LIMIT {
                cur_price = dec_zero();
            } else {
                cur_price = prod;
            }
        }
    }
    let mut result_path: Vec<Pool> = Vec::new();
    if !dec_is_zero(&cur_price) {
        result_path.push(clone_pool(cur_pool));
        let ghost head = result_path@;
        let ghost bp = best_path@;
        result_path.append(&mut best_path);
        proof {
            assert(result_path@ == head + bp);
            assert(result_path@.drop_first() =~= bp);
            assert(best_price.num() > 0) by (nonlinear_arith)
                requires
                    cur_price.num() == best_price.num() * cur_pool.fee_price_num(cur_token_id@),
                    cur_price.num() > 0,
            ;
            assert(best_price.num() * cur_pool.fee_price_num(cur_token_id@)
                == cur_pool.fee_price_num(cur_token_id@) * best_price.num()) by (nonlinear_arith);
            assert(bp.len() > 0);
            assert(walk_closes(root_token_id@, cur_token_id@, result_path@));
            assert(adj_distinct(result_path@)) by {
                assert(forall|i: int|
                    1 <= i < result_path@.len() ==> result_path@[i] == bp[i - 1]);
            }
            assert(all_from(result_path@, pools@)) by {
                assert(forall|i: int|
                    1 <= i < result_path@.len() ==> result_path@[i] == bp[i - 1]);
            }
            assert(cur_price.num() == cur_pool.fee_price_num(cur_token_id@) * path_price_num(
                next_token@,
                bp,
            ));
            assert(path_price_num(cur_token_id@, result_path@) == cur_pool.fee_price_num(
                cur_token_id@,
            ) * path_price_num(next_token@, bp));
            assert(path_price_sc(cur_token_id@, result_path@) == cur_pool.fee_price_sc(
                cur_token_id@,
            ) + path_price_sc(next_token@, bp));
        }
    }
    proof {
        assert(!path_has_id(cur_path@.drop_last(), cur_pool.id@)) by {
            assert(forall|i: int|
                0 <= i < cur_path@.len() - 1 ==> (#[trigger] cur_path@[i]).id@
                    != cur_path@[cur_path@.len() - 1].id@);
            assert(forall|i: int|
                0 <= i < cur_path@.drop_last().len() ==> cur_path@.drop_last()[i]
                    == cur_path@[i]);
        }
        let pidx = choose|j: int| 0 <= j < pools@.len() && pools@[j] == *cur_pool;
        assert(pools@[pidx].id@ == cur_pool.id@ && gate_pruned(
            pools@[pidx],
            cur_token_id@,
            tokens@,
            cur_price.digits@,
        ));
        assert(cur_price.num() == res.num);
        assert(cur_price.sc() == res.sc);
        assert(result_path@ == res.path);
    }
    let ghost pre_model = memo.model();
    let ghost pre_insert = memo.entries@;
    memo.insert(
        cur_pool.id.clone(),
        cur_token_id.clone(),
        clone_dec(&cur_price),
        clone_pools(&result_path),
    );
    proof {
        assert(forall|i: int|
            0 <= i < pre_insert.len() ==> memo.entries@[i] == pre_insert[i]);
        assert(memo_wf(*memo, pools@, tokens@, root_token_id@, cfg.max_depth as nat)) by {
            assert(entry_inv(memo.entries@.last(), pools@, tokens@, root_token_id@));
            assert(key_from_pools(memo.entries@.last(), pools@)) by {
                let pidx2 = choose|j: int| 0 <= j < pools@.len() && pools@[j] == *cur_pool;
                assert(0 <= pidx2 < pools@.len() && pools@[pidx2].id@
                    == memo.entries@.last().pool_id@ && (memo.entries@.last().token_id@
                    == pools@[pidx2].token0_id@ || memo.entries@.last().token_id@
                    == pools@[pidx2].token1_id@));
            }
            assert(forall|i: int|
                0 <= i < pre_insert.len() ==> key_from_pools(#[trigger] memo.entries@[i], pools@));
            assert(forall|i: int|
                0 <= i < pre_insert.len() ==> entry_inv(
                    #[trigger] memo.entries@[i],
                    pools@,
                    tokens@,
                    root_token_id@,
                ));
        }
        let e2 = SpecEntry {
            pool_id: cur_pool.id@,
            token_id: cur_token_id@,
            num: res.num,
            sc: res.sc,
            path: res.path,
        };
        assert(memo.model() =~= pre_model.push(e2));
        assert(spec_explore(
            pools@,
            tokens@,
            maxd,
            minroot,
            root_token_id@,
            m0,
            *cur_pool,
            cur_token_id@,
            cur_path@,
        ) == (pre_model.push(e2), res));
    }
    (cur_price, result_path)
}

/// One step of the search, per the recursive contract of the engine: holding
/// `cur_token_id` and about to route it through `cur_pool`, having already
/// visited `cur_path` (whose last pool is `cur_pool`), find the best
/// continuation multiplier and the pool path achieving it.
///
/// Beyond the depth bound the result is zero. A pool that touches the root
/// closes the loop and contributes its fee-adjusted price alone. Otherwise
/// the state is answered from the memo when present; else every pool of the
/// other token not yet visited is explored, the best continuation is kept,
/// the liquidity gate zeroes it when the sized trade would reach the pool's
/// reserve of the token, and the result is memoized.
#[verifier::rlimit(100)]
pub fn find_cycle(
    pools: &Vec<Pool>,
    tokens: &Vec<Token>,
    cfg: &SearchConfig,
    memo: &mut Memo,
    root_token_id: &String,
    cur_pool: &Pool,
    cur_token_id: &String,
    cur_path: &Vec<Pool>,
) -> (r: (Dec, Vec<Pool>))
    requires
        pools_wf(pools@),
        pool_ids_distinct(pools@),
        pools@.contains(*cur_pool),
        cur_pool.contains_token(cur_token_id@),
        cur_path@.len() >= 1,
        cur_path@.last() == *cur_pool,
        ids_distinct(cur_path@),
        memo_wf(*old(memo), pools@, tokens@, root_token_id@, cfg.max_depth as nat),
    ensures
        memo_wf(*final(memo), pools@, tokens@, root_token_id@, cfg.max_depth as nat),
        r.1@.len() <= cfg.max_depth + 1 + 2 * final(memo).entries@.len(),
        old(memo).entries@.len() <= final(memo).entries@.len(),
        forall|i: int|
            0 <= i < old(memo).entries@.len() ==> final(memo).entries@[i] == old(memo).entries@[i],
        forall|i: int|
            old(memo).entries@.len() <= i < final(memo).entries@.len() ==> !path_has_id(
                cur_path@.drop_last(),
                (#[trigger] final(memo).entries@[i]).pool_id@,
            ),
        result_inv(
            pools@,
            root_token_id@,
            cur_token_id@,
            cur_pool.id@,
            r.0.digits@,
            r.0.sc(),
            r.1@,
        ),
        cur_path@.len() > cfg.max_depth ==> r.0.num() == 0 && r.1@.len() == 0 && final(memo).entries@ == old(memo).entries@,
        cur_path@.len() <= cfg.max_depth && close_cond(
            *cur_pool,
            cur_token_id@,
            root_token_id@,
            cur_path@.len() as nat,
        ) ==> final(memo).entries@ == old(memo).entries@ && r.1@.len() == 1 && r.1@[0]
            == *cur_pool && close_price_ok(*cur_pool, cur_token_id@, r.0),
        cur_path@.len() <= cfg.max_depth && !close_cond(
            *cur_pool,
            cur_token_id@,
            root_token_id@,
            cur_path@.len() as nat,
        ) && old(memo).contains_key(cur_pool.id@, cur_token_id@) ==> final(memo).entries@ == old(memo).entries@ && r.0.digits@ == old(memo).entries@[old(memo).idx_of(
            cur_pool.id@,
            cur_token_id@,
        )].price.digits@ && r.0.scale == old(memo).entries@[old(memo).idx_of(
            cur_pool.id@,
            cur_token_id@,
        )].price.scale && r.1@ == old(memo).entries@[old(memo).idx_of(
            cur_pool.id@,
            cur_token_id@,
        )].path@,
        cur_path@.len() <= cfg.max_depth && !close_cond(
            *cur_pool,
            cur_token_id@,
            root_token_id@,
            cur_path@.len() as nat,
        ) && !old(memo).contains_key(cur_pool.id@, cur_token_id@) ==> final(memo).entries@.len() > old(memo).entries@.len() && final(memo).entries@.last().pool_id@
            == cur_pool.id@ && final(memo).entries@.last().token_id@ == cur_token_id@ && final(memo).entries@.last().price.digits@ == r.0.digits@ && final(memo).entries@.last().price.scale
            == r.0.scale && final(memo).entries@.last().path@ == r.1@,
        cur_path@.len() <= cfg.max_depth && !close_cond(
            *cur_pool,
            cur_token_id@,
            root_token_id@,
            cur_path@.len() as nat,
        ) && effective_balance_num(*cur_pool, cur_pool.token0_id@ == cur_token_id@, tokens@) == 0
            ==> r.0.num() == 0,
        cur_path@.len() <= cfg.max_depth && !close_cond(
            *cur_pool,
            cur_token_id@,
            root_token_id@,
            cur_path@.len() as nat,
        ) && r.0.num() == 0 ==> r.1@.len() == 0,
        explore_post(
            pools@,
            tokens@,
            cfg.max_depth as nat,
            cfg.min_root_amount as nat,
            root_token_id@,
            old(memo).model(),
            *cur_pool,
            cur_token_id@,
            cur_path@,
            final(memo).model(),
            r.0.digits@,
            r.0.sc(),
            r.1@,
        ),
    decreases cfg.max_depth + 1 - cur_path@.len(), 1int,
{
    let ghost maxd = cfg.max_depth as nat;
    let ghost minroot = cfg.min_root_amount as nat;
    let ghost m0 = old(memo).model();
    proof {
        let pidx = choose|j: int| 0 <= j < pools@.len() && pools@[j] == *cur_pool;
        assert(cur_pool.wf());
    }
    if cur_path.len() > cfg.max_depth {
        let r: (Dec, Vec<Pool>) = (dec_zero(), Vec::new());
        proof {
            assert(r.1@ =~= Seq::<Pool>::empty());
            assert(spec_explore(
                pools@,
                tokens@,
                maxd,
                minroot,
                root_token_id@,
                m0,
                *cur_pool,
                cur_token_id@,
                cur_path@,
            ) == (m0, spec_zero_res()));
        }
        return r;
    }
    let is_root = *cur_token_id == *root_token_id;
    let touches_root = cur_pool.token0_id == *root_token_id || cur_pool.token1_id
        == *root_token_id;
    if !is_root && touches_root && cur_path.len() > 1 {
        // the pool's other side is the root: this hop closes the loop
        let price = match cur_pool.fee_price_for(cur_token_id) {
            Ok(p) => {
                if p.scale > SC_LIMIT {
                    dec_zero()
                } else {
                    p
                }
            },
            Err(_) => {
                // every pool of the snapshot is well formed, so pricing
                // cannot fail here
                proof {
                    assert(false);
                }
                dec_zero()
            },
        };
        let mut path: Vec<Pool> = Vec::new();
        path.push(clone_pool(cur_pool));
        proof {
            assert(close_cond(*cur_pool, cur_token_id@, root_token_id@, cur_path@.len() as nat));
            assert(spec_explore(
                pools@,
                tokens@,
                maxd,
                minroot,
                root_token_id@,
                m0,
                *cur_pool,
                cur_token_id@,
                cur_path@,
            ) == (m0, spec_close_res(*cur_pool, cur_token_id@)));
            assert(path@ =~= seq![*cur_pool]);
            assert(path@.drop_first() =~= Seq::<Pool>::empty());
            assert(path@[0] == *cur_pool);
            assert(cur_pool.other_token_spec(cur_token_id@) == root_token_id@);
            assert(walk_closes(root_token_id@, cur_pool.other_token_spec(cur_token_id@), path@.drop_first()));
            assert(walk_closes(root_token_id@, cur_token_id@, path@));
            if price.num() > 0 {
                assert(path_price_num(
                    cur_pool.other_token_spec(cur_token_id@),
                    path@.drop_first(),
                ) == 1);
                assert(path_price_sc(cur_pool.other_token_spec(cur_token_id@), path@.drop_first())
                    == 0);
                assert(path_price_num(cur_token_id@, path@) == cur_pool.fee_price_num(
                    cur_token_id@,
                ) * 1);
                assert(path_price_sc(cur_token_id@, path@) == cur_pool.fee_price_sc(cur_token_id@)
                    + 0);
            }
        }
        return (price, path);
    }
    proof {
        assert(!close_cond(*cur_pool, cur_token_id@, root_token_id@, cur_path@.len() as nat));
    }
    match memo.get(&cur_pool.id, cur_token_id) {
        Some((price, path)) => {
            proof {
                let k = old(memo).idx_of(cur_pool.id@, cur_token_id@);
                let e = old(memo).entries@[k];
                assert(entry_inv(e, pools@, tokens@, root_token_id@));
                let pi = choose|pi: int|
                    #![auto]
                    0 <= pi < pools@.len() && pools@[pi].id@ == e.pool_id@ && gate_pruned(
                        pools@[pi],
                        e.token_id@,
                        tokens@,
                        e.price.digits@,
                    );
                lemma_pool_by_id(pools@, *cur_pool, pi);
                lemma_memo_model_has(*old(memo), cur_pool.id@, cur_token_id@);
                lemma_memo_model_at(*old(memo), cur_pool.id@, cur_token_id@);
                assert(spec_explore(
                    pools@,
                    tokens@,
                    maxd,
                    minroot,
                    root_token_id@,
                    m0,
                    *cur_pool,
                    cur_token_id@,
                    cur_path@,
                ) == (m0, spec_memo_at(m0, cur_pool.id@, cur_token_id@)));
            }
            return (price, path);
        },
        None => {},
    }
    proof {
        lemma_memo_model_has(*old(memo), cur_pool.id@, cur_token_id@);
        assert(!spec_memo_has(m0, cur_pool.id@, cur_token_id@));
    }
    let next_token = other_token_id(cur_pool, cur_token_id);
    let candidates = pools_for_token(pools, &next_token);
    let (best_price, best_path) = explore_candidates(
        pools,
        tokens,
        cfg,
        memo,
        root_token_id,
        cur_pool,
        cur_token_id,
        cur_path,
        &next_token,
        &candidates,
    );
    let r = seal_state(
        pools,
        tokens,
        cfg,
        memo,
        root_token_id,
        cur_pool,
        cur_token_id,
        cur_path,
        &next_token,
        best_price,
        best_path,
        Ghost(m0),
    );
    proof {
        assert(forall|i: int|
            0 <= i < old(memo).entries@.len() ==> memo.entries@[i] == old(memo).entries@[i]);
        assert forall|i: int|
            old(memo).entries@.len() <= i < memo.entries@.len() implies !path_has_id(
            cur_path@.drop_last(),
            (#[trigger] memo.entries@[i]).pool_id@,
        ) by {
            if i < memo.entries@.len() - 1 {
                assert(!path_has_id(cur_path@, memo.entries@[i].pool_id@));
                assert(forall|j: int|
                    0 <= j < cur_path@.drop_last().len() ==> cur_path@.drop_last()[j]
                        == cur_path@[j]);
            } else {
                assert(memo.entries@[i].pool_id@ == cur_pool.id@);
                assert(!path_has_id(cur_path@.drop_last(), cur_pool.id@)) by {
                    assert(forall|j: int|
                        0 <= j < cur_path@.len() - 1 ==> (#[trigger] cur_path@[j]).id@
                            != cur_path@[cur_path@.len() - 1].id@);
                    assert(forall|j: int|
                        0 <= j < cur_path@.drop_last().len() ==> cur_path@.drop_last()[j]
                            == cur_path@[j]);
                }
            }
        }
    }
    r
}

/// The driver's exact results: one search per pool adjacent to the root,
/// with the memo threaded left to right across them.
pub open spec fn spec_process(
    pools: Seq<Pool>,
    tokens: Seq<Token>,
    maxd: nat,
    minroot: nat,
    root: Seq<char>,
    memo: Seq<SpecEntry>,
    adj: Seq<Pool>,
) -> Seq<SpecResult>
    decreases adj.len(),
{
    if adj.len() == 0 {
        Seq::empty()
    } else {
        let o = spec_explore(pools, tokens, maxd, minroot, root, memo, adj[0], root, seq![adj[0]]);
        seq![o.1] + spec_process(pools, tokens, maxd, minroot, root, o.0, adj.drop_first())
    }
}

proof fn lemma_spec_process_len(
    pools: Seq<Pool>,
    tokens: Seq<Token>,
    maxd: nat,
    minroot: nat,
    root: Seq<char>,
    memo: Seq<SpecEntry>,
    adj: Seq<Pool>,
)
    ensures
        spec_process(pools, tokens, maxd, minroot, root, memo, adj).len() == adj.len(),
    decreases adj.len(),
{
    if adj.len() > 0 {
        let o = spec_explore(pools, tokens, maxd, minroot, root, memo, adj[0], root, seq![adj[0]]);
        lemma_spec_process_len(pools, tokens, maxd, minroot, root, o.0, adj.drop_first());
    }
}

/// The produced cycles carry, pool by adjacent pool, exactly the results the
/// model defines for a run that starts from an empty memo.
pub open spec fn process_post(
    pools: Seq<Pool>,
    tokens: Seq<Token>,
    maxd: nat,
    minroot: nat,
    root: Seq<char>,
    cycles: Seq<Cycle>,
) -> bool {
    let rs = spec_process(
        pools,
        tokens,
        maxd,
        minroot,
        root,
        Seq::empty(),
        adjacent_pools(pools, root),
    );
    &&& cycles.len() == rs.len()
    &&& forall|i: int|
        0 <= i < cycles.len() ==> (#[trigger] cycles[i]).max_price.num() == rs[i].num
            && cycles[i].max_price.sc() == rs[i].sc && cycles[i].pools@ == rs[i].path
}

/// What holds of every produced cycle: it names the root, its path (when
/// any) is a closed walk from the root back to the root within the snapshot
/// with no pool repeated in adjacent steps, and a positive multiplier is
/// exactly the product of the fee-adjusted prices along the path.
pub open spec fn cycle_ok(c: Cycle, pools: Seq<Pool>, root: Seq<char>) -> bool {
    &&& c.root_token@ == root
    &&& digits_ok(c.max_price.digits@)
    &&& c.max_price.sc() <= SC_LIMIT
    &&& (c.max_price.num() > 0 ==> c.pools@.len() > 0)
    &&& (c.max_price.num() == 0 ==> c.pools@.len() == 0)
    &&& (c.pools@.len() > 0 ==> walk_closes(root, root, c.pools@))
    &&& (c.pools@.len() > 0 ==> adj_distinct(c.pools@))
    &&& (c.pools@.len() > 0 ==> all_from(c.pools@, pools))
    &&& (c.max_price.num() > 0 ==> c.max_price.num() == path_price_num(root, c.pools@)
        && c.max_price.sc() == path_price_sc(root, c.pools@))
}

/// The top-level search: one cycle candidate per pool adjacent to the root
/// token, all explored against one shared memo table.
pub fn process_cycles(
    root_token: &Token,
    pools: &Vec<Pool>,
    tokens: &Vec<Token>,
    cfg: &SearchConfig,
) -> (cycles: Vec<Cycle>)
    requires
        pools_wf(pools@),
        pool_ids_distinct(pools@),
    ensures
        cycles@.len() == pools@.filter(|p: Pool| p.contains_token(root_token.id@)).len(),
        forall|i: int|
            0 <= i < cycles@.len() ==> cycle_ok(#[trigger] cycles@[i], pools@, root_token.id@),
        forall|i: int|
            0 <= i < cycles@.len() ==> (#[trigger] cycles@[i]).pools@.len() <= cfg.max_depth + 1
                + 4 * pools@.len(),
        process_post(
            pools@,
            tokens@,
            cfg.max_depth as nat,
            cfg.min_root_amount as nat,
            root_token.id@,
            cycles@,
        ),
{
    let ghost maxd = cfg.max_depth as nat;
    let ghost minroot = cfg.min_root_amount as nat;
    let root_pools = pools_for_token(pools, &root_token.id);
    let ghost full = spec_process(
        pools@,
        tokens@,
        maxd,
        minroot,
        root_token.id@,
        Seq::empty(),
        root_pools@,
    );
    let mut cycles: Vec<Cycle> = Vec::new();
    let mut memo = Memo::new();
    let mut i: usize = 0;
    proof {
        lemma_spec_process_len(
            pools@,
            tokens@,
            maxd,
            minroot,
            root_token.id@,
            Seq::empty(),
            root_pools@,
        );
        assert(memo.model() =~= Seq::<SpecEntry>::empty());
        assert(root_pools@.skip(0) =~= root_pools@);
    }
    while i < root_pools.len()
        invariant
            pools_wf(pools@),
            pool_ids_distinct(pools@),
            i <= root_pools@.len(),
            maxd == cfg.max_depth as nat,
            minroot == cfg.min_root_amount as nat,
            full == spec_process(
                pools@,
                tokens@,
                maxd,
                minroot,
                root_token.id@,
                Seq::empty(),
                root_pools@,
            ),
            full.len() == root_pools@.len(),
            spec_process(
                pools@,
                tokens@,
                maxd,
                minroot,
                root_token.id@,
                memo.model(),
                root_pools@.skip(i as int),
            ) == full.skip(i as int),
            forall|k: int|
                0 <= k < i ==> (#[trigger] cycles@[k]).max_price.num() == full[k].num
                    && cycles@[k].max_price.sc() == full[k].sc && cycles@[k].pools@ == full[k].path,
            root_pools@ == pools@.filter(|p: Pool| p.contains_token(root_token.id@)),
            forall|k: int|
                0 <= k < root_pools@.len() ==> pools@.contains(#[trigger] root_pools@[k])
                    && root_pools@[k].contains_token(root_token.id@),
            memo_wf(memo, pools@, tokens@, root_token.id@, cfg.max_depth as nat),
            cycles@.len() == i,
            forall|k: int|
                0 <= k < i ==> cycle_ok(#[trigger] cycles@[k], pools@, root_token.id@),
            forall|k: int|
                0 <= k < i ==> (#[trigger] cycles@[k]).pools@.len() <= cfg.max_depth + 1 + 4
                    * pools@.len(),
        decreases root_pools@.len() - i,
    {
        let pool = &root_pools[i];
        let mut start_path: Vec<Pool> = Vec::new();
        start_path.push(clone_pool(pool));
        proof {
            assert(start_path@.last() == root_pools@[i as int]);
            assert(start_path@ =~= seq![root_pools@[i as int]]);
        }
        let ghost mb = memo.model();
        let (price, ppath) = find_cycle(
            pools,
            tokens,
            cfg,
            &mut memo,
            &root_token.id,
            pool,
            &root_token.id,
            &start_path,
        );
        proof {
            lemma_memo_len_bound(memo, pools@, tokens@, root_token.id@, cfg.max_depth as nat);
            let rest = root_pools@.skip(i as int);
            assert(rest[0] == root_pools@[i as int]);
            assert(rest.drop_first() =~= root_pools@.skip(i as int + 1));
            let o = spec_explore(
                pools@,
                tokens@,
                maxd,
                minroot,
                root_token.id@,
                mb,
                root_pools@[i as int],
                root_token.id@,
                seq![root_pools@[i as int]],
            );
            assert(memo.model() == o.0 && price.num() == o.1.num && price.sc() == o.1.sc
                && ppath@ == o.1.path);
            let tail_p = spec_process(
                pools@,
                tokens@,
                maxd,
                minroot,
                root_token.id@,
                o.0,
                rest.drop_first(),
            );
            assert(spec_process(
                pools@,
                tokens@,
                maxd,
                minroot,
                root_token.id@,
                mb,
                rest,
            ) == seq![o.1] + tail_p);
            assert((seq![o.1] + tail_p)[0] == o.1);
            assert(full.skip(i as int)[0] == full[i as int]);
            assert(full[i as int] == o.1);
            assert((seq![o.1] + tail_p).drop_first() =~= tail_p);
            assert(full.skip(i as int).drop_first() =~= full.skip(i as int + 1));
            assert(tail_p == full.skip(i as int + 1));
            if start_path@.len() <= cfg.max_depth {
                assert(!close_cond(
                    root_pools@[i as int],
                    root_token.id@,
                    root_token.id@,
                    start_path@.len() as nat,
                ));
            }
        }
        cycles.push(Cycle { root_token: root_token.id.clone(), pools: ppath, max_price: price });
        i += 1;
    }
    cycles
}

/// Every pair of the sequence is ordered by descending multiplier.
pub open spec fn sorted_desc(s: Seq<Cycle>) -> bool {
    forall|i: int, j: int|
        0 <= i < j < s.len() ==> dec_ge_spec((#[trigger] s[i]).max_price, (#[trigger] s[j]).max_price)
}

/// Every multiplier of the sequence has sound digits and a scale the
/// decimal backend can order.
pub open spec fn cycles_valid(s: Seq<Cycle>) -> bool {
    forall|i: int|
        0 <= i < s.len() ==> digits_ok((#[trigger] s[i]).max_price.digits@) && s[i].max_price.sc()
            <= SC_LIMIT
}

/// At most ten entries survive ranking.
pub open spec fn top_len(n: nat) -> nat {
    if n < 10 {
        n
    } else {
        10
    }
}

/// The cycles with a positive multiplier, in input order: only these carry
/// an actionable route, and only these are ever emitted.
pub open spec fn positive_cycles(s: Seq<Cycle>) -> Seq<Cycle> {
    s.filter(|c: Cycle| c.max_price.num() > 0)
}

/// Insert a cycle into a descending list, after every element at least as
/// large: equal multipliers keep their order, so repeated insertion sorts
/// stably.
pub open spec fn insert_desc(sorted: Seq<Cycle>, c: Cycle) -> Seq<Cycle>
    decreases sorted.len(),
{
    if sorted.len() == 0 {
        seq![c]
    } else if dec_ge_spec(sorted[0].max_price, c.max_price) {
        seq![sorted[0]] + insert_desc(sorted.drop_first(), c)
    } else {
        seq![c] + sorted
    }
}

/// The stable descending sort of the sequence by multiplier: elements are
/// inserted left to right, and an element never passes an earlier one of
/// equal multiplier.
pub open spec fn stable_sort_desc(s: Seq<Cycle>) -> Seq<Cycle>
    decreases s.len(),
{
    if s.len() == 0 {
        Seq::empty()
    } else {
        insert_desc(stable_sort_desc(s.drop_last()), s.last())
    }
}

proof fn lemma_insert_desc_len(sorted: Seq<Cycle>, c: Cycle)
    ensures
        insert_desc(sorted, c).len() == sorted.len() + 1,
    decreases sorted.len(),
{
    if sorted.len() > 0 && dec_ge_spec(sorted[0].max_price, c.max_price) {
        lemma_insert_desc_len(sorted.drop_first(), c);
    }
}

proof fn lemma_stable_sort_len(s: Seq<Cycle>)
    ensures
        stable_sort_desc(s).len() == s.len(),
    decreases s.len(),
{
    if s.len() > 0 {
        lemma_stable_sort_len(s.drop_last());
        lemma_insert_desc_len(stable_sort_desc(s.drop_last()), s.last());
    }
}

proof fn lemma_insert_desc_split(s: Seq<Cycle>, c: Cycle, k: int)
    requires
        0 <= k <= s.len(),
        forall|i: int| 0 <= i < k ==> dec_ge_spec((#[trigger] s[i]).max_price, c.max_price),
        k < s.len() ==> !dec_ge_spec(s[k].max_price, c.max_price),
    ensures
        insert_desc(s, c) == s.take(k) + seq![c] + s.skip(k),
    decreases k,
{
    if k == 0 {
        if s.len() == 0 {
            assert(insert_desc(s, c) =~= s.take(0) + seq![c] + s.skip(0));
        } else {
            assert(insert_desc(s, c) == seq![c] + s);
            assert(seq![c] + s =~= s.take(0) + seq![c] + s.skip(0));
        }
    } else {
        assert(dec_ge_spec(s[0].max_price, c.max_price));
        let df = s.drop_first();
        assert(forall|i: int| 0 <= i < k - 1 ==> (#[trigger] df[i]) == s[i + 1]);
        lemma_insert_desc_split(df, c, k - 1);
        assert(insert_desc(s, c) == seq![s[0]] + (df.take(k - 1) + seq![c] + df.skip(k - 1)));
        assert(seq![s[0]] + (df.take(k - 1) + seq![c] + df.skip(k - 1)) =~= s.take(k) + seq![c]
            + s.skip(k));
    }
}

/// Rank the cycles: drop every non-positive multiplier, sort the rest in
/// descending order — stably, so equal multipliers keep input order — and
/// keep at most the top ten. No emitted cycle carries a non-positive
/// multiplier.
pub fn top_cycles(cycles: Vec<Cycle>) -> (r: Vec<Cycle>)
    requires
        cycles_valid(cycles@),
    ensures
        r@ == stable_sort_desc(positive_cycles(cycles@)).take(
            top_len(positive_cycles(cycles@).len() as nat) as int,
        ),
        r@.len() == top_len(positive_cycles(cycles@).len() as nat),
        sorted_desc(r@),
        forall|i: int|
            0 <= i < r@.len() ==> cycles@.contains(#[trigger] r@[i]) && r@[i].max_price.num() > 0,
{
    let ghost orig = cycles@;
    let mut src = cycles;
    let total = src.len();
    let mut pos: Vec<Cycle> = Vec::new();
    let mut k: usize = 0;
    proof {
        reveal(Seq::filter);
        assert(orig.take(0) =~= Seq::<Cycle>::empty());
        assert(src@ =~= orig.skip(0));
    }
    while src.len() > 0
        invariant
            cycles_valid(orig),
            orig.len() == total,
            k <= orig.len(),
            src@ == orig.skip(k as int),
            pos@ == positive_cycles(orig.take(k as int)),
            forall|i: int|
                0 <= i < pos@.len() ==> orig.contains(#[trigger] pos@[i])
                    && pos@[i].max_price.num() > 0 && digits_ok(pos@[i].max_price.digits@)
                    && pos@[i].max_price.sc() <= SC_LIMIT,
        decreases src@.len(),
    {
        let c = src.remove(0);
        proof {
            reveal(Seq::filter);
            assert(c == orig[k as int]);
            assert(orig.skip(k as int).remove(0) =~= orig.skip(k as int + 1));
            assert(orig.take(k as int + 1).drop_last() =~= orig.take(k as int));
            assert(orig.take(k as int + 1).last() == orig[k as int]);
            assert(orig.contains(orig[k as int]));
        }
        if !dec_is_zero(&c.max_price) {
            pos.push(c);
        }
        k += 1;
    }
    proof {
        assert(orig.take(k as int) =~= orig);
    }
    // stable insertion sort, descending
    let ghost pv = pos@;
    let mut rest = pos;
    let pos_total = rest.len();
    let mut out: Vec<Cycle> = Vec::new();
    let mut n: usize = 0;
    proof {
        assert(rest@ =~= pv.skip(0));
        assert(out@ =~= stable_sort_desc(pv.take(0)));
    }
    while rest.len() > 0
        invariant
            pv.len() == pos_total,
            n <= pv.len(),
            rest@ == pv.skip(n as int),
            out@ == stable_sort_desc(pv.take(n as int)),
            sorted_desc(out@),
            forall|i: int|
                0 <= i < pv.len() ==> orig.contains(#[trigger] pv[i]) && pv[i].max_price.num() > 0
                    && digits_ok(pv[i].max_price.digits@) && pv[i].max_price.sc() <= SC_LIMIT,
            forall|i: int|
                0 <= i < out@.len() ==> orig.contains(#[trigger] out@[i])
                    && out@[i].max_price.num() > 0 && digits_ok(out@[i].max_price.digits@)
                    && out@[i].max_price.sc() <= SC_LIMIT,
        decreases rest@.len(),
    {
        let c = rest.remove(0);
        proof {
            assert(c == pv[n as int]);
            assert(pv.skip(n as int).remove(0) =~= pv.skip(n as int + 1));
        }
        let mut j: usize = 0;
        while j < out.len() && dec_ge(&out[j].max_price, &c.max_price)
            invariant
                j <= out@.len(),
                sorted_desc(out@),
                forall|i: int|
                    0 <= i < out@.len() ==> orig.contains(#[trigger] out@[i])
                        && out@[i].max_price.num() > 0 && digits_ok(out@[i].max_price.digits@)
                        && out@[i].max_price.sc() <= SC_LIMIT,
                digits_ok(c.max_price.digits@),
                c.max_price.sc() <= SC_LIMIT,
                forall|i: int|
                    0 <= i < j ==> dec_ge_spec((#[trigger] out@[i]).max_price, c.max_price),
            decreases out@.len() - j,
        {
            j += 1;
        }
        let ghost before = out@;
        let ghost jj = j as int;
        out.insert(j, c);
        proof {
            lemma_insert_desc_split(before, c, jj);
            assert(out@ =~= before.take(jj) + seq![c] + before.skip(jj));
            assert(out@ == insert_desc(before, c));
            assert(pv.take(n as int + 1).drop_last() =~= pv.take(n as int));
            assert(pv.take(n as int + 1).last() == pv[n as int]);
            assert(out@ == stable_sort_desc(pv.take(n as int + 1)));
            assert forall|a: int, b: int| 0 <= a < b < out@.len() implies dec_ge_spec(
                (#[trigger] out@[a]).max_price,
                (#[trigger] out@[b]).max_price,
            ) by {
                if b < jj {
                    assert(out@[a] == before[a] && out@[b] == before[b]);
                } else if b == jj {
                    assert(out@[a] == before[a] && out@[b] == c);
                } else if a == jj {
                    assert(out@[a] == c && out@[b] == before[b - 1]);
                    assert(!dec_ge_spec(before[jj].max_price, c.max_price));
                    assert(dec_ge_spec(c.max_price, before[jj].max_price));
                    if b - 1 > jj {
                        assert(dec_ge_spec(before[jj].max_price, before[b - 1].max_price));
                        crate::dec::lemma_dec_ge_trans(
                            c.max_price,
                            before[jj].max_price,
                            before[b - 1].max_price,
                        );
                    }
                } else if a < jj {
                    assert(out@[a] == before[a] && out@[b] == before[b - 1]);
                    assert(a < b - 1 || b - 1 == jj);
                    assert(dec_ge_spec(before[a].max_price, before[b - 1].max_price));
                } else {
                    assert(out@[a] == before[a - 1] && out@[b] == before[b - 1]);
                }
            }
            assert forall|i: int| 0 <= i < out@.len() implies orig.contains(#[trigger] out@[i])
                && out@[i].max_price.num() > 0 && digits_ok(out@[i].max_price.digits@)
                && out@[i].max_price.sc() <= SC_LIMIT by {
                if i < jj {
                    assert(out@[i] == before[i]);
                } else if i > jj {
                    assert(out@[i] == before[i - 1]);
                } else {
                    assert(out@[i] == c);
                    assert(pv[n as int].max_price.num() > 0);
                }
            }
        }
        n += 1;
    }
    proof {
        assert(pv.take(n as int) =~= pv);
    }
    let ghost full = stable_sort_desc(pv);
    proof {
        lemma_stable_sort_len(pv);
        assert(full.take(full.len() as int) =~= full);
    }
    while out.len() > 10
        invariant
            out@ == full.take(out@.len() as int),
            out@.len() <= full.len(),
            out@.len() >= top_len(full.len() as nat),
            sorted_desc(full),
            forall|i: int|
                0 <= i < full.len() ==> orig.contains(#[trigger] full[i])
                    && full[i].max_price.num() > 0,
        decreases out@.len(),
    {
        out.pop();
        proof {
            assert(full.take(out@.len() as int + 1).drop_last() =~= full.take(out@.len() as int));
        }
    }
    proof {
        lemma_stable_sort_len(pv);
        assert(full.len() == pv.len());
        assert(pv == positive_cycles(orig));
        assert(out@.len() == top_len(full.len() as nat));
        assert(out@ == stable_sort_desc(positive_cycles(orig)).take(
            top_len(positive_cycles(orig).len() as nat) as int,
        ));
        assert forall|i: int, j: int| 0 <= i < j < out@.len() implies dec_ge_spec(
            (#[trigger] out@[i]).max_price,
            (#[trigger] out@[j]).max_price,
        ) by {
            assert(out@[i] == full[i] && out@[j] == full[j]);
        }
        assert forall|i: int| 0 <= i < out@.len() implies orig.contains(#[trigger] out@[i])
            && out@[i].max_price.num() > 0 by {
            assert(out@[i] == full[i]);
        }
    }
    out
}

/// The pool identifiers along a path.
pub open spec fn spec_pool_ids(path: Seq<Pool>) -> Seq<Seq<char>> {
    path.map_values(|p: Pool| p.id@)
}

/// One line of the final report: the rendered route, the pool identifiers,
/// the path length, and the multiplier rendered to five decimal places.
pub struct ReportEntry {
    pub router_path: Vec<String>,
    pub pool_ids: Vec<String>,
    pub length: usize,
    pub projected_profit: String,
}

/// The report entry renders exactly this cycle.
pub open spec fn rendered_from(e: ReportEntry, c: Cycle) -> bool {
    &&& e.router_path.deep_view() == spec_router_path(c.root_token@, c.pools@)
    &&& e.pool_ids.deep_view() == spec_pool_ids(c.pools@)
    &&& e.length == c.pools@.len()
    &&& e.projected_profit@ == fixed5_of(c.max_price.digits@, c.max_price.scale as int)
}

/// Render each cycle to a report entry, in order.
pub fn cycle_report(cycles: &Vec<Cycle>) -> (r: Vec<ReportEntry>)
    requires
        cycles_valid(cycles@),
    ensures
        r@.len() == cycles@.len(),
        forall|i: int| 0 <= i < r@.len() ==> rendered_from(#[trigger] r@[i], cycles@[i]),
{
    let mut r: Vec<ReportEntry> = Vec::new();
    let mut i: usize = 0;
    while i < cycles.len()
        invariant
            cycles_valid(cycles@),
            i <= cycles@.len(),
            r@.len() == i,
            forall|k: int| 0 <= k < i ==> rendered_from(#[trigger] r@[k], cycles@[k]),
        decreases cycles@.len() - i,
    {
        let c = &cycles[i];
        let mut ids: Vec<String> = Vec::new();
        let mut j: usize = 0;
        proof {
            assert(ids.deep_view() =~= spec_pool_ids(c.pools@.take(0)));
        }
        while j < c.pools.len()
            invariant
                j <= c.pools@.len(),
                ids.deep_view() == spec_pool_ids(c.pools@.take(j as int)),
            decreases c.pools@.len() - j,
        {
            let ghost before = ids.deep_view();
            ids.push(c.pools[j].id.clone());
            proof {
                assert(ids.deep_view() =~= before.push(c.pools@[j as int].id@));
                assert(c.pools@.take(j + 1) =~= c.pools@.take(j as int).push(c.pools@[j as int]));
                assert(spec_pool_ids(c.pools@.take(j + 1)) =~= spec_pool_ids(
                    c.pools@.take(j as int),
                ).push(c.pools@[j as int].id@));
            }
            j += 1;
        }
        proof {
            assert(c.pools@.take(c.pools@.len() as int) =~= c.pools@);
        }
        let entry = ReportEntry {
            router_path: c.router_path(),
            pool_ids: ids,
            length: c.pools.len(),
            projected_profit: format_5dp(&c.max_price),
        };
        r.push(entry);
        i += 1;
    }
    r
}

/// The whole report renders, in rank order, the top of the stable
/// descending sort of the positive-multiplier cycles that the search model
/// defines for this snapshot.
pub open spec fn report_post(
    pools: Seq<Pool>,
    tokens: Seq<Token>,
    maxd: nat,
    minroot: nat,
    root: Seq<char>,
    cs: Seq<Cycle>,
    r: Seq<ReportEntry>,
) -> bool {
    let ranked = stable_sort_desc(positive_cycles(cs)).take(
        top_len(positive_cycles(cs).len() as nat) as int,
    );
    &&& process_post(pools, tokens, maxd, minroot, root, cs)
    &&& cs.len() == adjacent_pools(pools, root).len()
    &&& (forall|k: int| 0 <= k < cs.len() ==> cycle_ok(#[trigger] cs[k], pools, root))
    &&& r.len() == ranked.len()
    &&& (forall|k: int| 0 <= k < r.len() ==> rendered_from(#[trigger] r[k], ranked[k]))
}

/// The full run: search every pool adjacent to the root, drop the cycles
/// with no positive multiplier, rank the rest by descending multiplier —
/// stably — and render at most the top ten. No emitted entry carries a
/// non-positive multiplier; a root with no adjacent pools, or none with a
/// profitable cycle, yields an empty report.
pub fn find_arbitrage_cycles(
    root_token: &Token,
    pools: &Vec<Pool>,
    tokens: &Vec<Token>,
    cfg: &SearchConfig,
) -> (r: Vec<ReportEntry>)
    requires
        pools_wf(pools@),
        pool_ids_distinct(pools@),
    ensures
        r@.len() <= 10,
        forall|i: int|
            0 <= i < r@.len() ==> (#[trigger] r@[i]).length <= cfg.max_depth + 1 + 4
                * pools@.len(),
        exists|cs: Seq<Cycle>|
            #![auto]
            report_post(
                pools@,
                tokens@,
                cfg.max_depth as nat,
                cfg.min_root_amount as nat,
                root_token.id@,
                cs,
                r@,
            ),
{
    let cycles = process_cycles(root_token, pools, tokens, cfg);
    proof {
        assert forall|i: int| 0 <= i < cycles@.len() implies digits_ok(
            (#[trigger] cycles@[i]).max_price.digits@,
        ) && cycles@[i].max_price.sc() <= SC_LIMIT by {
            assert(cycle_ok(cycles@[i], pools@, root_token.id@));
        }
    }
    let ghost all = cycles@;
    let ranked = top_cycles(cycles);
    proof {
        assert forall|i: int| 0 <= i < ranked@.len() implies cycle_ok(
            #[trigger] ranked@[i],
            pools@,
            root_token.id@,
        ) && digits_ok(ranked@[i].max_price.digits@) && ranked@[i].max_price.sc() <= SC_LIMIT by {
            assert(all.contains(ranked@[i]));
            let j = choose|j: int| 0 <= j < all.len() && all[j] == ranked@[i];
            assert(cycle_ok(all[j], pools@, root_token.id@));
        }
    }
    let report = cycle_report(&ranked);
    proof {
        assert(report_post(
            pools@,
            tokens@,
            cfg.max_depth as nat,
            cfg.min_root_amount as nat,
            root_token.id@,
            all,
            report@,
        ));
        assert forall|i: int| 0 <= i < report@.len() implies (#[trigger] report@[i]).length
            <= cfg.max_depth + 1 + 4 * pools@.len() by {
            assert(all.contains(ranked@[i]));
            let j = choose|j: int| 0 <= j < all.len() && all[j] == ranked@[i];
            assert(all[j].pools@.len() <= cfg.max_depth + 1 + 4 * pools@.len());
            assert(rendered_from(report@[i], ranked@[i]));
        }
    }
    report
}

/// A walk that closes renders to a route that ends at the root: the closure
/// law for produced cycles.
pub proof fn lemma_router_path_closes(root: Seq<char>, t: Seq<char>, path: Seq<Pool>)
    requires
        walk_closes(root, t, path),
    ensures
        spec_router_path(t, path).len() == 2 * path.len() + 1,
        spec_router_path(t, path)[0] == t,
        spec_router_path(t, path).last() == root,
    decreases path.len(),
{
    if path.len() > 0 {
        lemma_router_path_closes(root, path[0].other_token_spec(t), path.drop_first());
    }
}

} // verus!
