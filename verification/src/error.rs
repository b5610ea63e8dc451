//! The error type shared by every decoder, and the text of its messages.
use vstd::prelude::*;
use vstd::string::*;

verus! {

/// Why a file could not be read.
#[derive(Debug, Clone, PartialEq, Eq)]
pub enum PqError {
    /// The bytes break the format.
    Bad(String),
    /// The bytes use a feature outside the supported set.
    Unsupported(String),
}

/// What an error says: its kind and the characters of its message.
pub enum PqErrorView {
    Bad(Seq<char>),
    Unsupported(Seq<char>),
}

impl View for PqError {
    type V = PqErrorView;

    open spec fn view(&self) -> PqErrorView {
        match self {
            PqError::Bad(m) => PqErrorView::Bad(m@),
            PqError::Unsupported(m) => PqErrorView::Unsupported(m@),
        }
    }
}

/// An error in one line of text.
pub open spec fn error_line(e: PqErrorView) -> Seq<char> {
    match e {
        PqErrorView::Bad(m) => "parquet: "@ + m,
        PqErrorView::Unsupported(m) => "parquet unsupported: "@ + m,
    }
}

impl PqError {
    /// The error in one line of text.
    pub fn line(&self) -> (s: String)
        ensures
            s@ == error_line(self@),
    {
        match self {
            PqError::Bad(m) => {
                let mut s = "parquet: ".to_owned();
                s.append(m.as_str());
                s
            },
            PqError::Unsupported(m) => {
                let mut s = "parquet unsupported: ".to_owned();
                s.append(m.as_str());
                s
            },
        }
    }
}

/// The outcome of a decoder, with the value and the error taken by their views.
pub open spec fn outcome<T: View>(r: Result<T, PqError>) -> Result<T::V, PqErrorView> {
    match r {
        Ok(t) => Ok(t@),
        Err(e) => Err(e@),
    }
}

/// The decimal digits of a natural number, most significant first.
pub open spec fn digits(n: nat) -> Seq<char>
    decreases n,
{
    if n < 10 {
        seq![(('0' as int) + n) as char]
    } else {
        digits(n / 10).push((('0' as int) + n % 10) as char)
    }
}

/// The decimal text of an integer: a minus sign where it is negative, then its digits.
pub open spec fn decimal(n: int) -> Seq<char> {
    if n < 0 {
        "-"@ + digits((-n) as nat)
    } else {
        digits(n as nat)
    }
}

fn digits_text(n: u128) -> (s: String)
    ensures
        s@ == digits(n as nat),
    decreases n,
{
    let last: u8 = (n % 10) as u8;
    let one = digit_text(last);
    if n < 10 {
        one
    } else {
        let mut s = digits_text(n / 10);
        s.append(one.as_str());
        assert(s@ =~= digits((n / 10) as nat).push((('0' as int) + n % 10) as char));
        s
    }
}

fn digit_text(d: u8) -> (s: String)
    requires
        d < 10,
    ensures
        s@ == seq![(('0' as int) + d) as char],
{
    proof {
        reveal_strlit("0");
        reveal_strlit("1");
        reveal_strlit("2");
        reveal_strlit("3");
        reveal_strlit("4");
        reveal_strlit("5");
        reveal_strlit("6");
        reveal_strlit("7");
        reveal_strlit("8");
        reveal_strlit("9");
    }
    let t = match d {
        0 => "0",
        1 => "1",
        2 => "2",
        3 => "3",
        4 => "4",
        5 => "5",
        6 => "6",
        7 => "7",
        8 => "8",
        _ => "9",
    };
    assert(t@ =~= seq![(('0' as int) + d) as char]);
    t.to_owned()
}

/// The decimal text of a signed number.
pub fn decimal_text(n: i128) -> (s: String)
    ensures
        s@ == decimal(n as int),
{
    if n < 0 {
        let mag: u128 = (-(n + 1)) as u128 + 1;
        let mut s = "-".to_owned();
        let d = digits_text(mag);
        s.append(d.as_str());
        s
    } else {
        digits_text(n as u128)
    }
}

/// A `Bad` error with a fixed message.
pub fn bad(m: &str) -> (e: PqError)
    ensures
        e@ == PqErrorView::Bad(m@),
{
    PqError::Bad(m.to_owned())
}

/// An `Unsupported` error with a fixed message.
pub fn unsupported(m: &str) -> (e: PqError)
    ensures
        e@ == PqErrorView::Unsupported(m@),
{
    PqError::Unsupported(m.to_owned())
}

/// Three texts in a row.
pub fn text3(a: &str, b: &str, c: &str) -> (s: String)
    ensures
        s@ == a@ + b@ + c@,
{
    let mut s = a.to_owned();
    s.append(b);
    s.append(c);
    s
}

/// Four texts in a row.
pub fn text4(a: &str, b: &str, c: &str, d: &str) -> (s: String)
    ensures
        s@ == a@ + b@ + c@ + d@,
{
    let mut s = text3(a, b, c);
    s.append(d);
    s
}

/// Five texts in a row.
pub fn text5(a: &str, b: &str, c: &str, d: &str, e: &str) -> (s: String)
    ensures
        s@ == a@ + b@ + c@ + d@ + e@,
{
    let mut s = text3(a, b, c);
    s.append(d);
    s.append(e);
    s
}

/// Seven texts in a row.
pub fn text7(a: &str, b: &str, c: &str, d: &str, e: &str, f: &str, g: &str) -> (s: String)
    ensures
        s@ == a@ + b@ + c@ + d@ + e@ + f@ + g@,
{
    let mut s = text5(a, b, c, d, e);
    s.append(f);
    s.append(g);
    s
}

/// The name of a truth value.
pub open spec fn truth(b: bool) -> Seq<char> {
    if b {
        "true"@
    } else {
        "false"@
    }
}

/// The name of a truth value.
pub fn truth_text(b: bool) -> (s: &'static str)
    ensures
        s@ == truth(b),
{
    if b {
        "true"
    } else {
        "false"
    }
}

} // verus!
