use vstd::prelude::*;

verus! {

/// `s` without its leading and trailing whitespace, as `str::trim` gives it.
pub uninterp spec fn trimmed_of(s: Seq<char>) -> Seq<char>;

/// `s` in lower case, as `str::to_lowercase` gives it.
pub uninterp spec fn lowercase_of(s: Seq<char>) -> Seq<char>;

/// Relies on `str::trim`: the result depends on the characters of `s` alone.
#[verifier::external_body]
fn trim(s: &str) -> (r: &str)
    ensures
        r@ == trimmed_of(s@),
{
    s.trim()
}

/// Relies on `str::to_lowercase`: the result depends on the characters of `s` alone.
#[verifier::external_body]
fn to_lowercase(s: &str) -> (r: String)
    ensures
        r@ == lowercase_of(s@),
{
    s.to_lowercase()
}

/// Whether an answer that is already trimmed and lower-cased is the
/// affirmative token `y`. Anything else, `yes` included, is negative.
pub fn is_yes_token(answer: &str) -> (r: bool)
    ensures
        r == (answer@ == seq!['y']),
{
    let given = answer.to_owned();
    let yes = "y".to_owned();
    proof {
        reveal_strlit("y");
        assert(yes@ =~= seq!['y']);
    }
    given == yes
}

/// Whether a line typed by the operator confirms a deletion: the line, with
/// surrounding whitespace removed and in lower case, is exactly `y`.
pub fn is_affirmative(line: &str) -> (r: bool)
    ensures
        r == (lowercase_of(trimmed_of(line@)) == seq!['y']),
{
    let trimmed = trim(line);
    let lowered = to_lowercase(trimmed);
    is_yes_token(lowered.as_str())
}

} // verus!
