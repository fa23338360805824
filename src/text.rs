use vstd::prelude::*;
use vstd::string::StringExecFns;

verus! {

/// The text that `textwrap::fill` produces for `s` at `width` columns.
pub uninterp spec fn fill_of(s: Seq<char>, width: nat) -> Seq<char>;

/// Relies on `textwrap::fill`: wraps `s` to `width` columns at whitespace,
/// and breaks a word longer than `width` (textwrap 0.11 cannot keep such
/// words whole without risking a panic on multi-byte text); the result
/// depends on the text and the width alone.
#[verifier::external_body]
pub(crate) fn fill_text(s: &String, width: usize) -> (r: String)
    ensures
        r@ == fill_of(s@, width as nat),
{
    textwrap::fill(s.as_str(), width)
}

/// Relies on `textwrap::termwidth`: the width of the terminal on standard
/// output, or 80 when there is none. Nothing is known of its value.
#[verifier::external_body]
pub(crate) fn terminal_width() -> (r: usize) {
    textwrap::termwidth()
}

/// The decimal digits of `n`, most significant first.
pub open spec fn decimal(n: nat) -> Seq<char>
    decreases n,
{
    if n < 10 {
        seq![digit(n)]
    } else {
        decimal(n / 10) + seq![digit(n % 10)]
    }
}

pub open spec fn digit(d: nat) -> char {
    if d == 0 { '0' }
    else if d == 1 { '1' }
    else if d == 2 { '2' }
    else if d == 3 { '3' }
    else if d == 4 { '4' }
    else if d == 5 { '5' }
    else if d == 6 { '6' }
    else if d == 7 { '7' }
    else if d == 8 { '8' }
    else { '9' }
}

fn digit_text(d: usize) -> (r: &'static str)
    requires
        d < 10,
    ensures
        r@ == seq![digit(d as nat)],
{
    proof {
        reveal_strlit("0");
        reveal_strlit("1");
        reveal_strlit("2");
        reveal_strlit("3");
        reveal_strlit("4");
        reveal_strlit("5");
        reveal_strlit("6");
        reveal_strlit("7");
        reveal_strlit("8");
        reveal_strlit("9");
    }
    let r = if d == 0 { "0" } else if d == 1 { "1" } else if d == 2 { "2" } else if d == 3 { "3" }
        else if d == 4 { "4" } else if d == 5 { "5" } else if d == 6 { "6" } else if d == 7 { "7" }
        else if d == 8 { "8" } else { "9" };
    assert(r@ =~= seq![digit(d as nat)]);
    r
}

/// The decimal digits of `n`, most significant first.
pub fn decimal_text(n: usize) -> (r: String)
    ensures
        r@ == decimal(n as nat),
    decreases n,
{
    if n < 10 {
        String::from_str(digit_text(n))
    } else {
        let mut s = decimal_text(n / 10);
        s.append(digit_text(n % 10));
        s
    }
}

} // verus!
