use vstd::prelude::*;
use vstd::string::StringExecFns;

verus! {

/// The decimal digit `d` as a character.
pub open spec fn digit_char(d: int) -> char {
    if d == 0 { '0' }
    else if d == 1 { '1' }
    else if d == 2 { '2' }
    else if d == 3 { '3' }
    else if d == 4 { '4' }
    else if d == 5 { '5' }
    else if d == 6 { '6' }
    else if d == 7 { '7' }
    else if d == 8 { '8' }
    else { '9' }
}

/// Decimal notation of `n`, without leading zeros.
pub open spec fn decimal(n: nat) -> Seq<char>
    decreases n,
{
    if n < 10 {
        seq![digit_char(n as int)]
    } else {
        decimal(n / 10) + seq![digit_char((n % 10) as int)]
    }
}

/// `minutes / 60` in hundredths of an hour, rounded half away from zero.
pub open spec fn hundredths(minutes: int) -> int {
    if minutes >= 0 {
        (minutes * 100 + 30) / 60
    } else {
        -((-minutes * 100 + 30) / 60)
    }
}

/// Shortest decimal form of `h / 100`: no trailing zeros in the
/// fraction, and no point when the fraction is zero.
pub open spec fn centi_text(h: int) -> Seq<char> {
    let a = if h < 0 { -h } else { h };
    let sign = if h < 0 { seq!['-'] } else { Seq::<char>::empty() };
    let frac = a % 100;
    let tail = if frac == 0 {
        Seq::<char>::empty()
    } else if frac % 10 == 0 {
        seq!['.', digit_char(frac / 10)]
    } else {
        seq!['.', digit_char(frac / 10), digit_char(frac % 10)]
    };
    sign + decimal((a / 100) as nat) + tail
}

/// The hours that `minutes` make, rounded half away from zero to two
/// decimals, written shortest: 125 gives "2.08", 90 gives "1.5".
pub open spec fn hours_text(minutes: int) -> Seq<char> {
    centi_text(hundredths(minutes))
}

fn digit_str(d: u128) -> (r: &'static str)
    requires
        d < 10,
    ensures
        r@ == seq![digit_char(d as int)],
{
    proof {
        reveal_strlit("0");
        reveal_strlit("1");
        reveal_strlit("2");
        reveal_strlit("3");
        reveal_strlit("4");
        reveal_strlit("5");
        reveal_strlit("6");
        reveal_strlit("7");
        reveal_strlit("8");
        reveal_strlit("9");
    }
    match d {
        0 => "0",
        1 => "1",
        2 => "2",
        3 => "3",
        4 => "4",
        5 => "5",
        6 => "6",
        7 => "7",
        8 => "8",
        _ => "9",
    }
}

/// Decimal notation of `n`.
pub fn decimal_text(n: u128) -> (r: String)
    ensures
        r@ == decimal(n as nat),
    decreases n,
{
    if n < 10 {
        String::from_str(digit_str(n))
    } else {
        let mut s = decimal_text(n / 10);
        s.append(digit_str(n % 10));
        s
    }
}

/// The hours that `minutes` make, as the reports print them.
pub fn format_hours(minutes: i128) -> (r: String)
    requires
        -0x1_0000_0000_0000_0000_0000_0000 <= minutes <= 0x1_0000_0000_0000_0000_0000_0000,
    ensures
        r@ == hours_text(minutes as int),
{
    let m = minutes;
    let h: i128 = if m >= 0 { (m * 100 + 30) / 60 } else { -((-m * 100 + 30) / 60) };
    let a: u128 = if h < 0 { (-h) as u128 } else { h as u128 };
    let mut s = if h < 0 {
        proof { reveal_strlit("-"); }
        String::from_str("-")
    } else {
        String::new()
    };
    let whole = decimal_text(a / 100);
    s.append(whole.as_str());
    let frac = a % 100;
    if frac != 0 {
        proof { reveal_strlit("."); }
        s.append(".");
        s.append(digit_str(frac / 10));
        if frac % 10 != 0 {
            s.append(digit_str(frac % 10));
        }
    }
    assert(h == hundredths(minutes as int));
    s
}

} // verus!
