use vstd::prelude::*;

verus! {

/// Which variant of the optimizer runs: `Ea` breeds offspring as the
/// crossover and mutation operators leave them; `Ma` additionally refines
/// every offspring with the local-search pass.
#[derive(Clone, Copy, Debug, PartialEq, Eq, Structural)]
pub enum AlgType {
    Ea,
    Ma,
}

/// The error returned for an algorithm-type token that names no variant.
#[derive(Clone, Copy, Debug, PartialEq, Eq, Structural)]
pub struct AlgParseError;

/// The character code after ASCII lowercasing: letters `A` to `Z` map to
/// their lowercase counterparts and every other character stays itself.
pub open spec fn lower_code(c: char) -> int {
    if 65 <= c as int && c as int <= 90 {
        c as int + 32
    } else {
        c as int
    }
}

/// Whether two strings are equal once both are ASCII-lowercased.
pub open spec fn ascii_ieq(a: Seq<char>, b: Seq<char>) -> bool {
    a.len() == b.len() && forall|i: int| 0 <= i < a.len() ==> lower_code(a[i]) == lower_code(b[i])
}

/// Decides ASCII case-insensitive string equality. Relies on
/// `str::eq_ignore_ascii_case`: true exactly when the strings have the same
/// length and their characters match after ASCII lowercasing.
#[verifier::external_body]
fn str_ieq(a: &str, b: &str) -> (r: bool)
    ensures
        r == ascii_ieq(a@, b@),
{
    a.eq_ignore_ascii_case(b)
}

impl AlgType {
    /// Parses an algorithm-type token, ignoring ASCII case: `ea` selects the
    /// plain evolutionary variant and `ma` the memetic one; every other
    /// token is rejected.
    pub fn from_str(s: &str) -> (r: Result<AlgType, AlgParseError>)
        ensures
            r == Ok::<AlgType, AlgParseError>(AlgType::Ea) <==> ascii_ieq(s@, "ea"@),
            r == Ok::<AlgType, AlgParseError>(AlgType::Ma) <==> ascii_ieq(s@, "ma"@),
            r == Err::<AlgType, AlgParseError>(AlgParseError) <==> !ascii_ieq(s@, "ea"@)
                && !ascii_ieq(s@, "ma"@),
    {
        proof {
            reveal_strlit("ea");
            reveal_strlit("ma");
        }
        if str_ieq(s, "ea") {
            proof {
                assert(!ascii_ieq(s@, "ma"@)) by {
                    if ascii_ieq(s@, "ma"@) {
                        assert(lower_code(s@[0]) == lower_code("ea"@[0]));
                        assert(lower_code(s@[0]) == lower_code("ma"@[0]));
                    }
                }
            }
            Ok(AlgType::Ea)
        } else if str_ieq(s, "ma") {
            Ok(AlgType::Ma)
        } else {
            Err(AlgParseError)
        }
    }
}

} // verus!
