//! Numbers and lists as text.

use vstd::prelude::*;

verus! {

pub open spec fn digit(d: int) -> Seq<char> {
    if d == 0 {
        "0"@
    } else if d == 1 {
        "1"@
    } else if d == 2 {
        "2"@
    } else if d == 3 {
        "3"@
    } else if d == 4 {
        "4"@
    } else if d == 5 {
        "5"@
    } else if d == 6 {
        "6"@
    } else if d == 7 {
        "7"@
    } else if d == 8 {
        "8"@
    } else {
        "9"@
    }
}

/// A number in decimal, without leading zeros.
pub open spec fn decimal(n: nat) -> Seq<char>
    decreases n,
{
    if n < 10 {
        digit(n as int)
    } else {
        decimal(n / 10) + digit((n % 10) as int)
    }
}

pub open spec fn int_text(n: int) -> Seq<char> {
    if n < 0 {
        "-"@ + decimal((-n) as nat)
    } else {
        decimal(n as nat)
    }
}

fn digit_text(d: u64) -> (r: &'static str)
    requires
        d < 10,
    ensures
        r@ == digit(d as int),
{
    if d == 0 {
        "0"
    } else if d == 1 {
        "1"
    } else if d == 2 {
        "2"
    } else if d == 3 {
        "3"
    } else if d == 4 {
        "4"
    } else if d == 5 {
        "5"
    } else if d == 6 {
        "6"
    } else if d == 7 {
        "7"
    } else if d == 8 {
        "8"
    } else {
        "9"
    }
}

/// The number in decimal.
pub fn decimal_text(n: u64) -> (r: String)
    ensures
        r@ == decimal(n as nat),
    decreases n,
{
    if n < 10 {
        digit_text(n).to_owned()
    } else {
        decimal_text(n / 10).concat(digit_text(n % 10))
    }
}

/// The number in decimal, with its sign.
pub fn number_text(n: i64) -> (r: String)
    ensures
        r@ == int_text(n as int),
{
    if n < 0 {
        let m: u64 = (-(n + 1)) as u64 + 1;
        "-".to_owned().concat(decimal_text(m).as_str())
    } else {
        decimal_text(n as u64)
    }
}

/// The texts, with a comma and a blank between them.
pub open spec fn listed(ts: Seq<Seq<char>>) -> Seq<char>
    decreases ts.len(),
{
    if ts.len() == 0 {
        Seq::empty()
    } else if ts.len() == 1 {
        ts[0]
    } else {
        listed(ts.drop_last()) + ", "@ + ts.last()
    }
}

/// A list of numbers, in brackets.
pub open spec fn list_text(v: Seq<u32>) -> Seq<char> {
    "["@ + listed(v.map_values(|n: u32| decimal(n as nat))) + "]"@
}

/// A number that may be missing.
pub open spec fn option_text(n: Option<u32>) -> Seq<char> {
    match n {
        None => "None"@,
        Some(n) => "Some("@ + decimal(n as nat) + ")"@,
    }
}

pub fn show_list(v: &Vec<u32>) -> (r: String)
    ensures
        r@ == list_text(v@),
{
    let ghost ts = v@.map_values(|n: u32| decimal(n as nat));
    let n: usize = v.len();
    let mut s: String = String::new();
    let mut i: usize = 0;
    assert(ts.take(0) =~= Seq::empty());
    while i < n
        invariant
            i <= n == v@.len(),
            ts == v@.map_values(|n: u32| decimal(n as nat)),
            s@ == listed(ts.take(i as int)),
        decreases n - i,
    {
        proof {
            assert(ts.take(i + 1).drop_last() =~= ts.take(i as int));
            assert(ts.take(i + 1).last() == decimal(v@[i as int] as nat));
        }
        let d: String = decimal_text(v[i] as u64);
        s = if i == 0 {
            d
        } else {
            s.concat(", ").concat(d.as_str())
        };
        i = i + 1;
    }
    assert(ts.take(n as int) =~= ts);
    "[".to_owned().concat(s.as_str()).concat("]")
}

pub fn show_option(n: Option<u32>) -> (r: String)
    ensures
        r@ == option_text(n),
{
    match n {
        None => "None".to_owned(),
        Some(n) => "Some(".to_owned().concat(decimal_text(n as u64).as_str()).concat(")"),
    }
}

/// `before`, the number, and `after`.
pub fn around(before: &str, n: u32, after: &str) -> (r: String)
    ensures
        r@ == before@ + decimal(n as nat) + after@,
{
    before.to_owned().concat(decimal_text(n as u64).as_str()).concat(after)
}

} // verus!
