use vstd::prelude::*;
use vstd::string::StringExecFns;

use crate::orders::ClientId;

verus! {

/// The character of a decimal digit `d < 10`.
pub open spec fn digit_char(d: nat) -> char {
    (d + 48) as char
}

/// The decimal digits of `n`, most significant first, without leading zeros.
pub open spec fn decimal(n: nat) -> Seq<char>
    decreases n,
{
    if n < 10 {
        seq![digit_char(n)]
    } else {
        decimal(n / 10).push(digit_char(n % 10))
    }
}

/// The one-character text of the digit `d`.
fn digit_str(d: usize) -> (r: &'static str)
    requires
        d < 10,
    ensures
        r@ == seq![digit_char(d as nat)],
{
    proof {
        reveal_strlit("0");
        reveal_strlit("1");
        reveal_strlit("2");
        reveal_strlit("3");
        reveal_strlit("4");
        reveal_strlit("5");
        reveal_strlit("6");
        reveal_strlit("7");
        reveal_strlit("8");
        reveal_strlit("9");
    }
    let r = match d {
        0 => "0",
        1 => "1",
        2 => "2",
        3 => "3",
        4 => "4",
        5 => "5",
        6 => "6",
        7 => "7",
        8 => "8",
        _ => "9",
    };
    proof {
        assert(r@ =~= seq![digit_char(d as nat)]);
    }
    r
}

/// Appends the decimal digits of `n` to `s`.
fn push_decimal(s: &mut String, n: usize)
    ensures
        final(s)@ == old(s)@ + decimal(n as nat),
    decreases n,
{
    let ghost s0 = s@;
    if n >= 10 {
        push_decimal(s, n / 10);
    }
    s.append(digit_str(n % 10));
    proof {
        if n >= 10 {
            assert(s@ =~= s0 + decimal(n as nat));
        } else {
            assert(s@ =~= s0 + decimal(n as nat));
        }
    }
}

/// `n` in decimal.
pub(crate) fn decimal_string(n: usize) -> (r: String)
    ensures
        r@ == decimal(n as nat),
{
    let mut s = String::new();
    push_decimal(&mut s, n);
    proof {
        assert(s@ =~= decimal(n as nat));
    }
    s
}

/// A notification to one client about one of its orders.
#[derive(Debug, Clone, Copy, PartialEq, Eq, Structural)]
pub enum Message {
    /// To the owner of a resting order: `filled` of its `requested` size traded.
    Filled { filled: usize, requested: usize },
    /// To the owner of a market order: `filled` of its `requested` size traded at `price`.
    FilledAt { filled: usize, requested: usize, price: usize },
    /// To the owner of a market order: `remainder` of its `requested` size found
    /// nothing to trade with and was dropped.
    Unfilled { remainder: usize, requested: usize },
}

/// `"<a>/<b>"` in decimal.
pub open spec fn ratio_text(a: usize, b: usize) -> Seq<char> {
    decimal(a as nat) + seq!['/'] + decimal(b as nat)
}

impl Message {
    /// The text line sent to the client.
    pub open spec fn text_spec(self) -> Seq<char> {
        match self {
            Message::Filled { filled, requested } => "Order filled ["@ + ratio_text(filled, requested)
                + "]"@,
            Message::FilledAt { filled, requested, price } => "Order filled ["@ + ratio_text(
                filled,
                requested,
            ) + "] at "@ + decimal(price as nat),
            Message::Unfilled { remainder, requested } => "Unfilled ["@ + ratio_text(
                remainder,
                requested,
            ) + "]"@,
        }
    }

    fn push_ratio(s: &mut String, a: usize, b: usize)
        ensures
            final(s)@ == old(s)@ + ratio_text(a, b),
    {
        let da = decimal_string(a);
        let db = decimal_string(b);
        s.append(da.as_str());
        s.append("/");
        s.append(db.as_str());
        proof {
            reveal_strlit("/");
            assert(final(s)@ =~= old(s)@ + ratio_text(a, b));
        }
    }

    pub fn text(&self) -> (r: String)
        ensures
            r@ == self.text_spec(),
    {
        match *self {
            Message::Filled { filled, requested } => {
                let mut s = String::from_str("Order filled [");
                Self::push_ratio(&mut s, filled, requested);
                s.append("]");
                s
            },
            Message::FilledAt { filled, requested, price } => {
                let mut s = String::from_str("Order filled [");
                Self::push_ratio(&mut s, filled, requested);
                s.append("] at ");
                let dp = decimal_string(price);
                s.append(dp.as_str());
                s
            },
            Message::Unfilled { remainder, requested } => {
                let mut s = String::from_str("Unfilled [");
                Self::push_ratio(&mut s, remainder, requested);
                s.append("]");
                s
            },
        }
    }
}

/// What one matching step hands to the outside world.
#[derive(Debug, Clone, Copy, PartialEq, Eq, Structural)]
pub enum Event {
    /// Send `message` to `client`.
    Notify { client: ClientId, message: Message },
    /// A trade took place at `price`; for the public price feed.
    Trade { price: usize },
}

} // verus!
