use memetic_tsp::alg::{AlgParseError, AlgType};

#[test]
fn from_str_accepts_both_variants_ignoring_case() {
    assert_eq!(AlgType::from_str("ea"), Ok(AlgType::Ea));
    assert_eq!(AlgType::from_str("EA"), Ok(AlgType::Ea));
    assert_eq!(AlgType::from_str("eA"), Ok(AlgType::Ea));
    assert_eq!(AlgType::from_str("ma"), Ok(AlgType::Ma));
    assert_eq!(AlgType::from_str("MA"), Ok(AlgType::Ma));
    assert_eq!(AlgType::from_str("Ma"), Ok(AlgType::Ma));
}

#[test]
fn from_str_rejects_unknown_tokens() {
    assert_eq!(AlgType::from_str(""), Err(AlgParseError));
    assert_eq!(AlgType::from_str("e"), Err(AlgParseError));
    assert_eq!(AlgType::from_str("eaa"), Err(AlgParseError));
    assert_eq!(AlgType::from_str("xy"), Err(AlgParseError));
    assert_eq!(AlgType::from_str("m a"), Err(AlgParseError));
}
