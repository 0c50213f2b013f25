//! Why a request was not answered.

use vstd::prelude::*;

verus! {

/// Why a request was not answered.
#[derive(Debug, PartialEq)]
pub enum Error<T, U> {
    /// The service failed.
    Inner(T),
    /// No service could be bound for the request.
    Route(U),
    /// There was no room for another route; the number of routes there may be.
    NoCapacity(usize),
    /// The request belongs to no route.
    NotRecognized,
}

/// The error that lies behind an `Error`.
pub enum Cause<'a, T, U> {
    /// The service's error.
    Inner(&'a T),
    /// The error of binding a service.
    Route(&'a U),
}

/// The decimal digits of `n`.
pub open spec fn decimal(n: nat) -> Seq<char>
    decreases n,
{
    let digit = ('0' as int + n % 10) as char;
    if n < 10 {
        seq![digit]
    } else {
        decimal(n / 10).push(digit)
    }
}

/// A number of one digit is that digit, and a longer one is the number without
/// its last digit, followed by that digit.
pub proof fn decimal_by_digits(rest: nat, d: nat)
    requires
        d < 10,
    ensures
        decimal(d) == seq![('0' as int + d) as char],
        rest > 0 ==> decimal(10 * rest + d) == decimal(rest).push(('0' as int + d) as char),
{
    if rest > 0 {
        assert((10 * rest + d) / 10 == rest && (10 * rest + d) % 10 == d);
    }
}

/// Decimal digits are digits, and the first of a number but zero is not zero.
pub proof fn decimal_has_digits_only(n: nat)
    ensures
        decimal(n).len() > 0,
        forall|i: int|
            0 <= i < decimal(n).len() ==> '0' <= #[trigger] decimal(n)[i] && decimal(n)[i] <= '9',
        n > 0 ==> decimal(n)[0] != '0',
    decreases n,
{
    if n >= 10 {
        decimal_has_digits_only(n / 10);
    }
}

/// Different numbers have different digits.
pub proof fn decimal_tells_numbers_apart(m: nat, n: nat)
    requires
        decimal(m) == decimal(n),
    ensures
        m == n,
    decreases m,
{
    decimal_has_digits_only(m / 10);
    decimal_has_digits_only(n / 10);
    assert(decimal(m).last() as int == '0' as int + m % 10);
    assert(decimal(n).last() as int == '0' as int + n % 10);
    if m >= 10 && n >= 10 {
        assert(decimal(m).drop_last() =~= decimal(m / 10));
        assert(decimal(n).drop_last() =~= decimal(n / 10));
        decimal_tells_numbers_apart(m / 10, n / 10);
    }
}

/// The digit `d`.
fn digit(d: usize) -> (s: &'static str)
    requires
        d < 10,
    ensures
        s@ == decimal(d as nat),
{
    proof {
        reveal_strlit("0");
        reveal_strlit("1");
        reveal_strlit("2");
        reveal_strlit("3");
        reveal_strlit("4");
        reveal_strlit("5");
        reveal_strlit("6");
        reveal_strlit("7");
        reveal_strlit("8");
        reveal_strlit("9");
    }
    match d {
        0 => "0",
        1 => "1",
        2 => "2",
        3 => "3",
        4 => "4",
        5 => "5",
        6 => "6",
        7 => "7",
        8 => "8",
        _ => "9",
    }
}

/// Appends the decimal digits of `n`.
fn push_decimal(s: &mut String, n: usize)
    ensures
        final(s)@ == old(s)@ + decimal(n as nat),
    decreases n,
{
    let ghost before = s@;
    if n >= 10 {
        push_decimal(s, n / 10);
    }
    s.append(digit(n % 10));
    assert(s@ =~= before + decimal(n as nat));
}

impl<T, U> Error<T, U> {
    /// The error that lies behind this one, if there is one.
    pub fn cause(&self) -> (cause: Option<Cause<'_, T, U>>)
        ensures
            cause == (match *self {
                Error::Inner(why) => Some(Cause::Inner(&why)),
                Error::Route(why) => Some(Cause::Route(&why)),
                _ => None,
            }),
    {
        match self {
            Error::Inner(why) => Some(Cause::Inner(why)),
            Error::Route(why) => Some(Cause::Route(why)),
            _ => None,
        }
    }

    /// What kind of error this is.
    pub fn description(&self) -> (s: &'static str)
        ensures
            s@ == (match *self {
                Error::Inner(_) => "inner service error"@,
                Error::Route(_) => "route recognition failed"@,
                Error::NoCapacity(_) => "router capacity reached"@,
                Error::NotRecognized => "route not recognized"@,
            }),
    {
        match self {
            Error::Inner(_) => "inner service error",
            Error::Route(_) => "route recognition failed",
            Error::NoCapacity(_) => "router capacity reached",
            Error::NotRecognized => "route not recognized",
        }
    }

    /// The error in words, where `show_inner` and `show_route` put the errors
    /// behind it in words.
    pub fn fmt<F, G>(&self, show_inner: F, show_route: G) -> (s: String) where
        F: FnOnce(&T) -> String,
        G: FnOnce(&U) -> String,

        requires
            self matches Error::Inner(why) ==> call_requires(show_inner, (&why,)),
            self matches Error::Route(why) ==> call_requires(show_route, (&why,)),
        ensures
            match *self {
                Error::Inner(why) => call_ensures(show_inner, (&why,), s),
                Error::Route(why) => exists|shown: String| #[trigger]
                    call_ensures(show_route, (&why,), shown) && s@ == "route recognition failed: "@
                        + shown@,
                Error::NoCapacity(capacity) => s@ == "router capacity reached ("@ + decimal(
                    capacity as nat,
                ) + ")"@,
                Error::NotRecognized => s@ == "route not recognized"@,
            },
    {
        match self {
            Error::Inner(why) => show_inner(why),
            Error::Route(why) => {
                let shown: String = show_route(why);
                "route recognition failed: ".to_owned().concat(shown.as_str())
            },
            Error::NoCapacity(capacity) => {
                let mut s: String = "router capacity reached (".to_owned();
                push_decimal(&mut s, *capacity);
                s.concat(")")
            },
            Error::NotRecognized => "route not recognized".to_owned(),
        }
    }
}

} // verus!
