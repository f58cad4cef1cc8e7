//! Tokens: the assets at the nodes of the pool graph.

use vstd::prelude::*;
use crate::dec::{all_digit_bytes, be_val, parse_u64_capped, sbytes, to_vals};

verus! {

/// A traded asset: an opaque identifier, a display symbol, and the decimal
/// precision that scales its raw on-chain balances.
pub struct Token {
    pub id: String,
    pub symbol: String,
    pub decimals: String,
}

impl Token {
    /// The decimals field spells a non-negative integer that fits in `u32`.
    pub open spec fn wf(self) -> bool {
        &&& all_digit_bytes(sbytes(self.decimals@))
        &&& sbytes(self.decimals@).len() >= 1
        &&& be_val(to_vals(sbytes(self.decimals@))) <= u32::MAX
    }

    /// The decimal precision as a number.
    pub open spec fn decimals_val(self) -> nat {
        be_val(to_vals(sbytes(self.decimals@)))
    }

    /// Whether the record is well formed; `true` exactly when [`Token::wf`]
    /// holds.
    pub fn check_wf(&self) -> (r: bool)
        ensures
            r == self.wf(),
    {
        parse_u64_capped(self.decimals.as_str().as_bytes(), 4294967295u64).is_some()
    }
}

/// The first token of the sequence carrying the given identifier.
pub open spec fn spec_find_token(tokens: Seq<Token>, id: Seq<char>) -> Option<Token>
    decreases tokens.len(),
{
    if tokens.len() == 0 {
        None
    } else if tokens[0].id@ == id {
        Some(tokens[0])
    } else {
        spec_find_token(tokens.drop_first(), id)
    }
}

/// Look a token up by identifier; the first match wins.
pub fn find_token<'a>(tokens: &'a Vec<Token>, id: &String) -> (r: Option<&'a Token>)
    ensures
        match r {
            None => spec_find_token(tokens@, id@) is None,
            Some(t) => spec_find_token(tokens@, id@) == Some(*t),
        },
{
    let mut i: usize = 0;
    proof {
        assert(tokens@.skip(0) =~= tokens@);
    }
    while i < tokens.len()
        invariant
            i <= tokens@.len(),
            spec_find_token(tokens@, id@) == spec_find_token(tokens@.skip(i as int), id@),
        decreases tokens@.len() - i,
    {
        if tokens[i].id == *id {
            proof {
                assert(tokens@.skip(i as int)[0] == tokens@[i as int]);
            }
            return Some(&tokens[i]);
        }
        proof {
            assert(tokens@.skip(i as int)[0] == tokens@[i as int]);
            assert(tokens@.skip(i as int).drop_first() =~= tokens@.skip(i + 1));
        }
        i += 1;
    }
    proof {
        assert(tokens@.skip(i as int).len() == 0);
    }
    None
}

} // verus!
