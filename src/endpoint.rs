//! The scrape endpoint, with an optional port that overrides the one it names.

use vstd::prelude::*;
use vstd::string::*;

verus! {

pub const DIGITS: &'static str = "0123456789";

/// The decimal digits of `n`.
pub open spec fn decimal(n: nat) -> Seq<char>
    decreases n,
{
    if n < 10 {
        seq![DIGITS@[n as int]]
    } else {
        decimal(n / 10).push(DIGITS@[(n % 10) as int])
    }
}

/// `endpoint` after its port, the first `:` followed by two to five digits
/// and a `/`, is replaced by `replacement`.
pub uninterp spec fn port_replaced(endpoint: Seq<char>, replacement: Seq<char>) -> Seq<char>;

/// Relies on `regex::Regex::replace` with the pattern `:(\d{2,5})/`: the
/// leftmost match is replaced by `replacement`, which holds no `$` and so is
/// taken literally; the result depends on the two texts alone.
#[verifier::external_body]
fn replace_port(endpoint: &str, replacement: &str) -> (r: String)
    requires
        !replacement@.contains('$'),
    ensures
        r@ == port_replaced(endpoint@, replacement@),
{
    let pattern = regex::Regex::new(":(\\d{2,5})/").unwrap();
    pattern.replace(endpoint, replacement).into_owned()
}

fn digit_text(d: u16) -> (r: String)
    requires
        d < 10,
    ensures
        r@ == seq![DIGITS@[d as int]],
{
    proof {
        reveal_strlit("0123456789");
    }
    let r = DIGITS.substring_char(d as usize, d as usize + 1).to_owned();
    assert(r@ =~= seq![DIGITS@[d as int]]);
    r
}

/// The decimal digits of `n`.
pub fn decimal_text(n: u16) -> (r: String)
    ensures
        r@ == decimal(n as nat),
    decreases n,
{
    if n < 10 {
        digit_text(n)
    } else {
        let head = decimal_text(n / 10);
        let last = digit_text(n % 10);
        let r = head.concat(last.as_str());
        assert(r@ =~= decimal(n as nat));
        r
    }
}

/// The endpoint to scrape: with a port given, the port in `endpoint` is
/// replaced by it; without, `endpoint` as it is.
pub fn endpoint_with_port(endpoint: &str, port: Option<u16>) -> (r: String)
    ensures
        match port {
            Some(p) => r@ == port_replaced(endpoint@, seq![':'] + decimal(p as nat) + seq!['/']),
            None => r@ == endpoint@,
        },
{
    match port {
        Some(p) => {
            let digits = decimal_text(p);
            let replacement = ":".to_owned().concat(digits.as_str()).concat("/");
            proof {
                reveal_strlit(":");
                reveal_strlit("/");
                reveal_strlit("0123456789");
                assert(replacement@ =~= seq![':'] + decimal(p as nat) + seq!['/']);
                lemma_decimal_digits(p as nat);
                if replacement@.contains('$') {
                    let i = choose|i: int| 0 <= i < replacement@.len() && replacement@[i] == '$';
                    if 0 < i < replacement@.len() - 1 {
                        assert(decimal(p as nat)[i - 1] == '$');
                    }
                }
            }
            replace_port(endpoint, replacement.as_str())
        },
        None => endpoint.to_owned(),
    }
}

proof fn lemma_decimal_digits(n: nat)
    ensures
        forall|i: int| 0 <= i < decimal(n).len() ==> decimal(n)[i] != '$',
    decreases n,
{
    reveal_strlit("0123456789");
    if n >= 10 {
        lemma_decimal_digits(n / 10);
        assert forall|i: int| 0 <= i < decimal(n).len() implies decimal(n)[i] != '$' by {
            if i < decimal(n / 10).len() {
                assert(decimal(n)[i] == decimal(n / 10)[i]);
            }
        }
    }
}

} // verus!
