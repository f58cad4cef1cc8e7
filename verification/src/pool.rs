//! Pools: the two-asset liquidity venues at the edges of the graph, and the
//! pricing model over their stored fields.

use vstd::prelude::*;
use crate::dec::{
    all_digit_bytes, be_val, dec_bytes_num, dec_bytes_scale, dec_from_u64, dec_zero, mul_digits,
    parse_dec_bytes, parse_u64_capped, sbytes, to_vals, valid_dec_bytes, Dec, SC_LIMIT,
};
use crate::token::{find_token, spec_find_token, Token};

verus! {

/// The field of a pool record that a pricing computation failed on.
#[derive(PartialEq, Eq, Structural, Clone, Copy, Debug)]
pub enum ErrorField {
    FeeTier,
    Token0Price,
    Token1Price,
    Token0Balance,
    Token1Balance,
    Token0Lookup,
    Token1Lookup,
    Token0Decimals,
    Token1Decimals,
}

/// A malformed or missing piece of persisted data, named by the pool it
/// belongs to and the field it was found in.
#[derive(Debug)]
pub struct PoolDataError {
    pub pool_id: String,
    pub field: ErrorField,
}

/// A liquidity pool between two distinct tokens. Each price field holds how
/// much of the *other* token one unit buys; the fee tier is in basis points
/// out of 1,000,000; the balance fields hold raw reserves in the token's
/// smallest unit, or are empty when unknown.
pub struct Pool {
    pub id: String,
    pub token0_id: String,
    pub token1_id: String,
    pub token0_price: String,
    pub token1_price: String,
    pub total_value_locked_token0: String,
    pub total_value_locked_token1: String,
    pub liquidity: String,
    pub fee_tier: String,
    pub token0_balance: String,
    pub token1_balance: String,
}

impl Pool {
    /// The token is one of the pool's two sides.
    pub open spec fn contains_token(self, t: Seq<char>) -> bool {
        self.token0_id@ == t || self.token1_id@ == t
    }

    /// The identifier on the side opposite `t`.
    pub open spec fn other_token_spec(self, t: Seq<char>) -> Seq<char> {
        if self.token0_id@ == t {
            self.token1_id@
        } else {
            self.token0_id@
        }
    }

    /// The fee tier spells an integer in `[0, 1,000,000)`.
    pub open spec fn fee_wf(self) -> bool {
        &&& all_digit_bytes(sbytes(self.fee_tier@))
        &&& sbytes(self.fee_tier@).len() >= 1
        &&& be_val(to_vals(sbytes(self.fee_tier@))) <= 999999
    }

    /// The fee tier as a number.
    pub open spec fn fee_val(self) -> nat {
        be_val(to_vals(sbytes(self.fee_tier@)))
    }

    /// The stored price consulted when swapping `t` through the pool:
    /// the price of the *other* side.
    pub open spec fn base_price_chars(self, t: Seq<char>) -> Seq<char> {
        if self.token0_id@ == t {
            self.token1_price@
        } else {
            self.token0_price@
        }
    }

    /// That price field parses as a decimal.
    pub open spec fn base_price_wf(self, t: Seq<char>) -> bool {
        valid_dec_bytes(sbytes(self.base_price_chars(t)))
    }

    /// Mantissa of the fee-adjusted price for swapping `t` through the pool:
    /// the stored price times `1,000,000 - fee`.
    pub open spec fn fee_price_num(self, t: Seq<char>) -> nat {
        dec_bytes_num(sbytes(self.base_price_chars(t))) * ((1000000 - self.fee_val()) as nat)
    }

    /// Scale of the fee-adjusted price: the stored price's scale plus the six
    /// digits of the fee denominator.
    pub open spec fn fee_price_sc(self, t: Seq<char>) -> nat {
        dec_bytes_scale(sbytes(self.base_price_chars(t))) + 6
    }

    /// The balance field on the chosen side.
    pub open spec fn balance_chars(self, token0: bool) -> Seq<char> {
        if token0 {
            self.token0_balance@
        } else {
            self.token1_balance@
        }
    }

    /// The token identifier on the chosen side.
    pub open spec fn side_token_id(self, token0: bool) -> Seq<char> {
        if token0 {
            self.token0_id@
        } else {
            self.token1_id@
        }
    }

    /// The balance field is empty or parses as a decimal.
    pub open spec fn balance_wf(self, token0: bool) -> bool {
        self.balance_chars(token0).len() == 0 || valid_dec_bytes(sbytes(self.balance_chars(token0)))
    }

    /// The record invariant: distinct sides, a fee tier in range, prices
    /// that parse, and balance fields that are empty or parse.
    pub open spec fn wf(self) -> bool {
        &&& self.token0_id@ != self.token1_id@
        &&& self.fee_wf()
        &&& valid_dec_bytes(sbytes(self.token0_price@))
        &&& valid_dec_bytes(sbytes(self.token1_price@))
        &&& self.balance_wf(true)
        &&& self.balance_wf(false)
    }

    /// Whether the token is the pool's first side.
    pub fn is_token_0(&self, token_id: &String) -> (r: bool)
        ensures
            r == (self.token0_id@ == token_id@),
    {
        self.token0_id == *token_id
    }

    /// Whether the record invariant holds; `true` exactly when [`Pool::wf`]
    /// holds.
    pub fn check_wf(&self) -> (r: bool)
        ensures
            r == self.wf(),
    {
        self.token0_id != self.token1_id
            && parse_u64_capped(self.fee_tier.as_str().as_bytes(), 999999).is_some()
            && parse_dec_bytes(self.token0_price.as_str().as_bytes()).is_some()
            && parse_dec_bytes(self.token1_price.as_str().as_bytes()).is_some()
            && (self.token0_balance.as_str().is_empty()
                || parse_dec_bytes(self.token0_balance.as_str().as_bytes()).is_some())
            && (self.token1_balance.as_str().is_empty()
                || parse_dec_bytes(self.token1_balance.as_str().as_bytes()).is_some())
    }

    /// The stored exchange price for swapping `token_id` into the pool's
    /// other side, net of the trading fee: `price * (1 - fee/1,000,000)`,
    /// computed exactly. The token must be one of the pool's two sides;
    /// malformed fields are reported with the pool id and the field name.
    pub fn fee_price_for(&self, token_id: &String) -> (r: Result<Dec, PoolDataError>)
        requires
            self.contains_token(token_id@),
        ensures
            !self.fee_wf() ==> r is Err && (r->Err_0).field == ErrorField::FeeTier,
            self.fee_wf() && !self.base_price_wf(token_id@) ==> r is Err && (r->Err_0).field == (
            if self.token0_id@ == token_id@ {
                ErrorField::Token1Price
            } else {
                ErrorField::Token0Price
            }),
            self.fee_wf() && self.base_price_wf(token_id@) <==> r is Ok,
            r is Ok ==> (r->Ok_0).wf() && (r->Ok_0).num() == self.fee_price_num(token_id@)
                && (r->Ok_0).sc() == self.fee_price_sc(token_id@),
            r is Err ==> (r->Err_0).pool_id@ == self.id@,
    {
        let fee = match parse_u64_capped(self.fee_tier.as_str().as_bytes(), 999999) {
            None => {
                return Err(PoolDataError { pool_id: self.id.clone(), field: ErrorField::FeeTier });
            },
            Some(f) => f,
        };
        let is0 = self.token0_id == *token_id;
        let base_bytes: &[u8] = if is0 {
            self.token1_price.as_str().as_bytes()
        } else {
            self.token0_price.as_str().as_bytes()
        };
        let base = match parse_dec_bytes(base_bytes) {
            None => {
                let field = if is0 {
                    ErrorField::Token1Price
                } else {
                    ErrorField::Token0Price
                };
                return Err(PoolDataError { pool_id: self.id.clone(), field });
            },
            Some(b) => b,
        };
        let n = base_bytes.len();
        let factor = dec_from_u64(1000000 - fee);
        let digits = mul_digits(&base.digits, &factor.digits);
        Ok(Dec { digits, scale: base.scale + 6 })
    }

    /// The pool's reserve of its first token, normalized by that token's
    /// decimal precision: the raw balance divided by `10^decimals`. An empty
    /// balance field means zero; a missing or malformed token record, or a
    /// malformed balance, is an error naming the pool and field.
    pub fn token0_balance(&self, tokens: &Vec<Token>) -> (r: Result<Dec, PoolDataError>)
        ensures
            balance_result_spec(*self, true, tokens@, r),
    {
        self.balance_of(true, tokens)
    }

    /// The pool's reserve of its second token, normalized by that token's
    /// decimal precision; as [`Pool::token0_balance`].
    pub fn token1_balance(&self, tokens: &Vec<Token>) -> (r: Result<Dec, PoolDataError>)
        ensures
            balance_result_spec(*self, false, tokens@, r),
    {
        self.balance_of(false, tokens)
    }

    fn balance_of(&self, token0: bool, tokens: &Vec<Token>) -> (r: Result<Dec, PoolDataError>)
        ensures
            balance_result_spec(*self, token0, tokens@, r),
    {
        let field: &String = if token0 {
            &self.token0_balance
        } else {
            &self.token1_balance
        };
        if field.as_str().is_empty() {
            return Ok(dec_zero());
        }
        let fbytes: &[u8] = field.as_str().as_bytes();
        let n = fbytes.len();
        let bal = match parse_dec_bytes(fbytes) {
            None => {
                let f = if token0 {
                    ErrorField::Token0Balance
                } else {
                    ErrorField::Token1Balance
                };
                return Err(PoolDataError { pool_id: self.id.clone(), field: f });
            },
            Some(b) => b,
        };
        let side: &String = if token0 {
            &self.token0_id
        } else {
            &self.token1_id
        };
        let token = match find_token(tokens, side) {
            None => {
                let f = if token0 {
                    ErrorField::Token0Lookup
                } else {
                    ErrorField::Token1Lookup
                };
                return Err(PoolDataError { pool_id: self.id.clone(), field: f });
            },
            Some(t) => t,
        };
        let decimals = match parse_u64_capped(token.decimals.as_str().as_bytes(), 4294967295u64) {
            None => {
                let f = if token0 {
                    ErrorField::Token0Decimals
                } else {
                    ErrorField::Token1Decimals
                };
                return Err(PoolDataError { pool_id: self.id.clone(), field: f });
            },
            Some(d) => d,
        };
        Ok(Dec { digits: bal.digits, scale: bal.scale + decimals as u128 })
    }
}

/// Exactly when and what the normalized-balance computation returns, case by
/// case over the stored data.
pub open spec fn balance_result_spec(
    p: Pool,
    token0: bool,
    tokens: Seq<Token>,
    r: Result<Dec, PoolDataError>,
) -> bool {
    let bytes = sbytes(p.balance_chars(token0));
    if p.balance_chars(token0).len() == 0 {
        r is Ok && (r->Ok_0).wf() && (r->Ok_0).num() == 0 && (r->Ok_0).sc() == 0
    } else if !valid_dec_bytes(bytes) {
        r is Err && (r->Err_0).pool_id@ == p.id@ && (r->Err_0).field == (if token0 {
            ErrorField::Token0Balance
        } else {
            ErrorField::Token1Balance
        })
    } else {
        match spec_find_token(tokens, p.side_token_id(token0)) {
            None => r is Err && (r->Err_0).pool_id@ == p.id@ && (r->Err_0).field == (
            if token0 {
                ErrorField::Token0Lookup
            } else {
                ErrorField::Token1Lookup
            }),
            Some(t) => if !t.wf() {
                r is Err && (r->Err_0).pool_id@ == p.id@ && (r->Err_0).field == (if token0 {
                    ErrorField::Token0Decimals
                } else {
                    ErrorField::Token1Decimals
                })
            } else {
                r is Ok && (r->Ok_0).wf() && (r->Ok_0).num() == dec_bytes_num(bytes)
                    && (r->Ok_0).sc() == dec_bytes_scale(bytes) + t.decimals_val()
            },
        }
    }
}

/// The reserve the search engine weighs a path against: the normalized
/// balance where it is available and representable, and zero where the data
/// is absent, malformed, or beyond [`SC_LIMIT`] — absence of knowledge prunes.
pub open spec fn effective_balance_num(p: Pool, token0: bool, tokens: Seq<Token>) -> nat {
    let bytes = sbytes(p.balance_chars(token0));
    if p.balance_chars(token0).len() == 0 || !valid_dec_bytes(bytes) {
        0
    } else {
        match spec_find_token(tokens, p.side_token_id(token0)) {
            None => 0,
            Some(t) => if !t.wf() || dec_bytes_scale(bytes) + t.decimals_val() > SC_LIMIT {
                0
            } else {
                dec_bytes_num(bytes)
            },
        }
    }
}

/// The scale that goes with [`effective_balance_num`].
pub open spec fn effective_balance_sc(p: Pool, token0: bool, tokens: Seq<Token>) -> nat {
    let bytes = sbytes(p.balance_chars(token0));
    if p.balance_chars(token0).len() == 0 || !valid_dec_bytes(bytes) {
        0
    } else {
        match spec_find_token(tokens, p.side_token_id(token0)) {
            None => 0,
            Some(t) => if !t.wf() || dec_bytes_scale(bytes) + t.decimals_val() > SC_LIMIT {
                0
            } else {
                dec_bytes_scale(bytes) + t.decimals_val()
            },
        }
    }
}

/// The normalized balance with every failure case degraded to zero, which
/// safely prunes: the value the liquidity gate compares against.
pub fn norm_balance(p: &Pool, token0: bool, tokens: &Vec<Token>) -> (r: Dec)
    ensures
        r.wf(),
        r.num() == effective_balance_num(*p, token0, tokens@),
        r.sc() == effective_balance_sc(*p, token0, tokens@),
        r.sc() <= SC_LIMIT,
{
    match p.balance_of(token0, tokens) {
        Err(_) => dec_zero(),
        Ok(b) => {
            if b.scale > SC_LIMIT {
                dec_zero()
            } else {
                b
            }
        },
    }
}

/// A field-for-field copy of the pool.
pub fn clone_pool(p: &Pool) -> (r: Pool)
    ensures
        r == *p,
{
    let r = Pool {
        id: p.id.clone(),
        token0_id: p.token0_id.clone(),
        token1_id: p.token1_id.clone(),
        token0_price: p.token0_price.clone(),
        token1_price: p.token1_price.clone(),
        total_value_locked_token0: p.total_value_locked_token0.clone(),
        total_value_locked_token1: p.total_value_locked_token1.clone(),
        liquidity: p.liquidity.clone(),
        fee_tier: p.fee_tier.clone(),
        token0_balance: p.token0_balance.clone(),
        token1_balance: p.token1_balance.clone(),
    };
    r
}

/// The identifier of the token on the side opposite `token_id`.
pub fn other_token_id(p: &Pool, token_id: &String) -> (r: String)
    ensures
        r@ == p.other_token_spec(token_id@),
{
    if p.is_token_0(token_id) {
        p.token1_id.clone()
    } else {
        p.token0_id.clone()
    }
}

} // verus!
