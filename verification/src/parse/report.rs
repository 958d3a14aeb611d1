use vstd::prelude::*;

verus! {

/// What an error report shows: its code, its message, a note, the message
/// of the label under the offending place, the file and the offset there.
pub struct Diagnostic {
    pub code: usize,
    pub message: String,
    pub note: String,
    pub label: String,
    pub filename: String,
    pub offset: usize,
}

/// The decimal digit character for `d < 10`.
pub open spec fn digit_char(d: nat) -> char {
    ((48 + d) as u8) as char
}

/// The decimal notation of a natural number, as `format!("{}", n)` writes it.
pub open spec fn decimal(n: nat) -> Seq<char>
    decreases n,
{
    if n < 10 {
        seq![digit_char(n)]
    } else {
        decimal(n / 10).push(digit_char(n % 10))
    }
}

fn digit_str(d: usize) -> (s: &'static str)
    requires
        d < 10,
    ensures
        s@ == seq![digit_char(d as nat)],
{
    let s = if d == 0 {
        "0"
    } else if d == 1 {
        "1"
    } else if d == 2 {
        "2"
    } else if d == 3 {
        "3"
    } else if d == 4 {
        "4"
    } else if d == 5 {
        "5"
    } else if d == 6 {
        "6"
    } else if d == 7 {
        "7"
    } else if d == 8 {
        "8"
    } else {
        "9"
    };
    proof {
        reveal_strlit("0");
        reveal_strlit("1");
        reveal_strlit("2");
        reveal_strlit("3");
        reveal_strlit("4");
        reveal_strlit("5");
        reveal_strlit("6");
        reveal_strlit("7");
        reveal_strlit("8");
        reveal_strlit("9");
        assert(s@ =~= seq![digit_char(d as nat)]);
    }
    s
}

/// The decimal notation of a number.
pub fn to_decimal(n: usize) -> (s: String)
    ensures
        s@ == decimal(n as nat),
    decreases n,
{
    if n < 10 {
        String::from_str(digit_str(n))
    } else {
        let mut s = to_decimal(n / 10);
        s.append(digit_str(n % 10));
        s
    }
}

/// `prefix`, then `line:column`, then `suffix`.
pub fn at_line_column(prefix: &str, line: usize, column: usize, suffix: &str) -> (s: String)
    ensures
        s@ == prefix@ + decimal(line as nat) + seq![':'] + decimal(column as nat) + suffix@,
{
    let colon = ":";
    proof {
        reveal_strlit(":");
    }
    let mut s = String::from_str(prefix);
    s.append(to_decimal(line).as_str());
    s.append(colon);
    s.append(to_decimal(column).as_str());
    s.append(suffix);
    assert(s@ =~= prefix@ + decimal(line as nat) + seq![':'] + decimal(column as nat) + suffix@);
    s
}

} // verus!
