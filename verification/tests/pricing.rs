use poolcycle::dec::{
    dec_from_u64, dec_ge, dec_is_zero, dec_mul, dec_zero, format_5dp, parse_dec_bytes,
    parse_u64_capped, Dec,
};
use poolcycle::pool::{ErrorField, Pool};
use poolcycle::token::{find_token, Token};

fn dec(s: &str) -> Dec {
    parse_dec_bytes(s.as_bytes()).expect("decimal text")
}

fn same_value(a: &Dec, b: &Dec) -> bool {
    dec_ge(a, b) && dec_ge(b, a)
}

fn pool(
    id: &str,
    t0: &str,
    t1: &str,
    p0: &str,
    p1: &str,
    fee: &str,
    b0: &str,
    b1: &str,
) -> Pool {
    Pool {
        id: id.to_string(),
        token0_id: t0.to_string(),
        token1_id: t1.to_string(),
        token0_price: p0.to_string(),
        token1_price: p1.to_string(),
        total_value_locked_token0: String::new(),
        total_value_locked_token1: String::new(),
        liquidity: String::new(),
        fee_tier: fee.to_string(),
        token0_balance: b0.to_string(),
        token1_balance: b1.to_string(),
    }
}

fn token(id: &str, decimals: &str) -> Token {
    Token { id: id.to_string(), symbol: id.to_string(), decimals: decimals.to_string() }
}

#[test]
fn parse_plain_integer() {
    let d = dec("123");
    assert_eq!(d.digits, vec![1, 2, 3]);
    assert_eq!(d.scale, 0);
}

#[test]
fn parse_fraction() {
    let d = dec("123.45");
    assert_eq!(d.digits, vec![1, 2, 3, 4, 5]);
    assert_eq!(d.scale, 2);
}

#[test]
fn parse_leading_dot() {
    let d = dec(".5");
    assert_eq!(d.digits, vec![5]);
    assert_eq!(d.scale, 1);
}

#[test]
fn parse_trailing_dot_and_zero() {
    let d = dec("123.");
    assert_eq!(d.digits, vec![1, 2, 3]);
    assert_eq!(d.scale, 0);
    let z = dec("0.00");
    assert!(dec_is_zero(&z));
    assert_eq!(z.scale, 2);
}

#[test]
fn parse_rejects_bad_text() {
    assert!(parse_dec_bytes(b"").is_none());
    assert!(parse_dec_bytes(b".").is_none());
    assert!(parse_dec_bytes(b"1.2.3").is_none());
    assert!(parse_dec_bytes(b"-1").is_none());
    assert!(parse_dec_bytes(b"1e5").is_none());
    assert!(parse_dec_bytes(b" 1").is_none());
}

#[test]
fn parse_u64_capped_bounds() {
    assert_eq!(parse_u64_capped(b"999999", 999999), Some(999999));
    assert_eq!(parse_u64_capped(b"1000000", 999999), None);
    assert_eq!(parse_u64_capped(b"0", 999999), Some(0));
    assert_eq!(parse_u64_capped(b"", 999999), None);
    assert_eq!(parse_u64_capped(b"12a", 999999), None);
    assert_eq!(parse_u64_capped(b"0003000", 999999), Some(3000));
}

#[test]
fn from_u64_and_zero() {
    let d = dec_from_u64(12345);
    assert_eq!(d.digits, vec![1, 2, 3, 4, 5]);
    assert_eq!(d.scale, 0);
    assert!(dec_is_zero(&dec_from_u64(0)));
    assert!(dec_is_zero(&dec_zero()));
    assert!(!dec_is_zero(&d));
}

#[test]
fn multiplication_is_exact() {
    let a = dec("2.5");
    let b = dec("0.4");
    let p = dec_mul(&a, &b);
    // 2.5 * 0.4 = 1.00
    assert!(same_value(&p, &dec("1")));
    assert_eq!(p.scale, 2);
}

// Fee application: tokenA_price = 2.0, tokenB_price = 0.5, feeTier = 3000
// (0.3%); the fee-adjusted price for swapping tokenA is 0.5 * 0.997 = 0.4985.
#[test]
fn fee_application() {
    let p = pool("p1", "A", "B", "2.0", "0.5", "3000", "", "");
    let fp = p.fee_price_for(&"A".to_string()).expect("well-formed pool");
    assert!(same_value(&fp, &dec("0.4985")));
    // swapping tokenB uses tokenA's stored price: 2.0 * 0.997 = 1.994
    let fp_b = p.fee_price_for(&"B".to_string()).expect("well-formed pool");
    assert!(same_value(&fp_b, &dec("1.994")));
}

#[test]
fn fee_price_errors_name_pool_and_field() {
    let bad_fee = pool("p1", "A", "B", "2.0", "0.5", "1000000", "", "");
    let e = bad_fee.fee_price_for(&"A".to_string()).unwrap_err();
    assert_eq!(e.pool_id, "p1");
    assert!(matches!(e.field, ErrorField::FeeTier));

    let bad_price = pool("p2", "A", "B", "2.0", "zzz", "3000", "", "");
    let e = bad_price.fee_price_for(&"A".to_string()).unwrap_err();
    assert_eq!(e.pool_id, "p2");
    assert!(matches!(e.field, ErrorField::Token1Price));

    let e = pool("p3", "A", "B", "x", "0.5", "3000", "", "")
        .fee_price_for(&"B".to_string())
        .unwrap_err();
    assert!(matches!(e.field, ErrorField::Token0Price));
}

#[test]
fn empty_balance_is_zero() {
    let p = pool("p1", "A", "B", "1", "1", "0", "", "12");
    let tokens = vec![token("A", "6"), token("B", "6")];
    let b = p.token0_balance(&tokens).expect("empty means zero");
    assert!(dec_is_zero(&b));
}

#[test]
fn balance_normalizes_by_decimals() {
    let p = pool("p1", "A", "B", "1", "1", "0", "1000000", "");
    let tokens = vec![token("A", "6")];
    let b = p.token0_balance(&tokens).expect("well-formed");
    // 1000000 / 10^6 = 1
    assert!(same_value(&b, &dec("1")));
}

#[test]
fn balance_errors() {
    let tokens = vec![token("A", "x")];
    let p = pool("p1", "A", "B", "1", "1", "0", "5", "5");
    let e = p.token0_balance(&tokens).unwrap_err();
    assert!(matches!(e.field, ErrorField::Token0Decimals));
    let e = p.token1_balance(&tokens).unwrap_err();
    assert!(matches!(e.field, ErrorField::Token1Lookup));
    let bad = pool("p2", "A", "B", "1", "1", "0", "abc", "");
    let e = bad.token0_balance(&tokens).unwrap_err();
    assert_eq!(e.pool_id, "p2");
    assert!(matches!(e.field, ErrorField::Token0Balance));
}

#[test]
fn find_token_first_match() {
    let tokens = vec![token("A", "6"), token("B", "8"), token("A", "2")];
    let t = find_token(&tokens, &"A".to_string()).expect("present");
    assert_eq!(t.decimals, "6");
    assert!(find_token(&tokens, &"C".to_string()).is_none());
}

#[test]
fn check_wf_matches_fields() {
    let good = pool("p1", "A", "B", "2.0", "0.5", "3000", "", "17");
    assert!(good.check_wf());
    assert!(!pool("p1", "A", "A", "2.0", "0.5", "3000", "", "").check_wf());
    assert!(!pool("p1", "A", "B", "2.0", "0.5", "1000000", "", "").check_wf());
    assert!(!pool("p1", "A", "B", "", "0.5", "3000", "", "").check_wf());
    assert!(!pool("p1", "A", "B", "2.0", "0.5", "3000", "b", "").check_wf());
    assert!(token("A", "6").check_wf());
    assert!(!token("A", "6.5").check_wf());
}

#[test]
fn ordering_is_by_value() {
    assert!(dec_ge(&dec("1.20"), &dec("1.2")));
    assert!(dec_ge(&dec("1.2"), &dec("1.20")));
    assert!(dec_ge(&dec("10"), &dec("9.9999")));
    assert!(!dec_ge(&dec("0.5"), &dec("0.50001")));
}

#[test]
fn format_five_decimal_places() {
    assert_eq!(format_5dp(&dec("1.2")), "1.20000");
    assert_eq!(format_5dp(&dec("0.4985")), "0.49850");
    assert_eq!(format_5dp(&dec_zero()), "0.00000");
}

// Liquidity gate boundary: a downstream multiplier of 0.0001 at a notional
// of 100000 needs 10 units; a normalized balance of exactly 10 fires the
// gate (>=), one of 10.0001 does not.
#[test]
fn liquidity_gate_boundary() {
    let future = dec("0.0001");
    let required = dec_mul(&future, &dec_from_u64(100000));
    assert!(same_value(&required, &dec("10")));
    assert!(dec_ge(&required, &dec("10")));
    assert!(!dec_ge(&required, &dec("10.0001")));
}
