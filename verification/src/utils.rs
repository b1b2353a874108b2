//! Secret generation, clock access, and rotation-schedule arithmetic.

use vstd::prelude::*;

verus! {

/// The characters that generated secrets are drawn from: letters, digits,
/// and a fixed set of punctuation. None of them is a `:`, a line break or
/// whitespace, so a generated secret always survives the line format.
pub open spec fn secret_charset() -> Seq<char> {
    "abcdefghijklmnopqrstuvwxyzABCDEFGHIJKLMNOPQRSTUVWXYZ0123456789!@#$%^&*(-_=+)"@
}

/// No character of the charset is a separator or a line break, so a
/// generated secret is always one the line format can carry: with a valid
/// identifier and a non-negative stamp, a generated record satisfies
/// `valid_record`.
pub proof fn lemma_secret_charset_carriable(c: char)
    requires
        secret_charset().contains(c),
    ensures
        c != ':',
        c != '\n',
        c != '\r',
{
    reveal_strlit(
        "abcdefghijklmnopqrstuvwxyzABCDEFGHIJKLMNOPQRSTUVWXYZ0123456789!@#$%^&*(-_=+)",
    );
}

/// Relies on rand's `Rng::random_range`: a sample from `0..bound` lies in
/// that range (the call panics only on an empty range, which the
/// precondition rules out).
#[verifier::external_body]
fn random_below(bound: usize) -> (r: usize)
    requires
        bound > 0,
    ensures
        r < bound,
{
    rand::Rng::random_range(&mut rand::rng(), 0..bound)
}

/// Relies on time's `OffsetDateTime`: the clock read as a Unix timestamp in
/// whole seconds. Nothing is assumed of the value; the clock may say
/// anything.
#[verifier::external_body]
pub(crate) fn unix_now_secs() -> (t: i64) {
    time::OffsetDateTime::now_utc().unix_timestamp()
}

/// Relies on time's `OffsetDateTime`: the clock read as a Unix timestamp in
/// nanoseconds. Nothing is assumed of the value.
#[verifier::external_body]
pub(crate) fn unix_now_nanos() -> (t: i128) {
    time::OffsetDateTime::now_utc().unix_timestamp_nanos()
}

/// Generates a random secret string of the requested length, every character
/// drawn from the fixed charset.
pub fn generate_secret(length: usize) -> (s: String)
    ensures
        s@.len() == length,
        forall|i: int| 0 <= i < s@.len() ==> secret_charset().contains(#[trigger] s@[i]),
{
    let charset: &str =
        "abcdefghijklmnopqrstuvwxyzABCDEFGHIJKLMNOPQRSTUVWXYZ0123456789!@#$%^&*(-_=+)";
    proof {
        reveal_strlit(
            "abcdefghijklmnopqrstuvwxyzABCDEFGHIJKLMNOPQRSTUVWXYZ0123456789!@#$%^&*(-_=+)",
        );
    }
    let n = charset.unicode_len();
    let mut out = String::new();
    let mut i: usize = 0;
    while i < length
        invariant
            i <= length,
            out@.len() == i,
            n == charset@.len(),
            n == 76,
            charset@ == secret_charset(),
            forall|t: int| 0 <= t < out@.len() ==> secret_charset().contains(#[trigger] out@[t]),
        decreases length - i,
    {
        let ghost opre = out@;
        let idx = random_below(n);
        let piece = charset.substring_char(idx, idx + 1);
        out.append(piece);
        proof {
            assert(piece@ == charset@.subrange(idx as int, idx as int + 1));
            assert(piece@.len() == 1);
            assert(out@ == opre + piece@);
            assert(out@[i as int] == charset@[idx as int]);
            assert(secret_charset().contains(out@[i as int]));
            assert forall|t: int| 0 <= t < out@.len() implies secret_charset().contains(
                #[trigger] out@[t],
            ) by {
                if t < i {
                    assert(out@[t] == opre[t]);
                }
            }
        }
        i = i + 1;
    }
    out
}

/// How often rotation should run for keys that live `ttl_secs` seconds when
/// `count` of them are kept alive: twice the lifetime spread over the count.
pub fn recommended_rotation_interval(ttl_secs: u64, count: usize) -> (r: u64)
    requires
        count > 0,
        ttl_secs <= u64::MAX / 2,
    ensures
        r == (ttl_secs * 2) as int / count as int,
{
    (ttl_secs * 2) / (count as u64)
}

} // verus!
