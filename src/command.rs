use vstd::prelude::*;
use vstd::string::StringExecFns;
use vstd::string::StrSliceExecFns;

use crate::notice::{decimal, decimal_string};
use crate::book::order_valid;
use crate::orders::{now, ClientId, LimitOrder, MarketOrder, MarketSide, Orders, Timestamp};

verus! {

/// Unicode `White_Space`, the characters that separate the words of a command.
pub open spec fn is_space(c: char) -> bool {
    let u = c as u32;
    (0x09 <= u <= 0x0d) || u == 0x20 || u == 0x85 || u == 0xa0 || u == 0x1680 || (0x2000 <= u
        <= 0x200a) || u == 0x2028 || u == 0x2029 || u == 0x202f || u == 0x205f || u == 0x3000
}

fn is_space_char(c: char) -> (r: bool)
    ensures
        r == is_space(c),
{
    let u = c as u32;
    (0x09 <= u && u <= 0x0d) || u == 0x20 || u == 0x85 || u == 0xa0 || u == 0x1680 || (0x2000 <= u
        && u <= 0x200a) || u == 0x2028 || u == 0x2029 || u == 0x202f || u == 0x205f || u == 0x3000
}

/// The words of `s` after the partial word `cur`: maximal runs of
/// non-space characters, in order.
pub open spec fn words_after(s: Seq<char>, cur: Seq<char>) -> Seq<Seq<char>>
    decreases s.len(),
{
    if s.len() == 0 {
        if cur.len() > 0 {
            seq![cur]
        } else {
            Seq::empty()
        }
    } else if is_space(s[0]) {
        (if cur.len() > 0 {
            seq![cur]
        } else {
            Seq::empty()
        }) + words_after(s.drop_first(), Seq::empty())
    } else {
        words_after(s.drop_first(), cur.push(s[0]))
    }
}

/// The words of `s`: its maximal runs of non-space characters, in order.
pub open spec fn words(s: Seq<char>) -> Seq<Seq<char>> {
    words_after(s, Seq::empty())
}

pub open spec fn views(v: Seq<&str>) -> Seq<Seq<char>> {
    v.map_values(|w: &str| w@)
}

/// Splits `s` into its words.
pub fn split_words<'a>(s: &'a str) -> (r: Vec<&'a str>)
    ensures
        views(r@) == words(s@),
{
    let n = s.unicode_len();
    let mut r: Vec<&'a str> = Vec::new();
    let mut start: usize = 0;
    let mut i: usize = 0;
    proof {
        assert(s@.skip(0) =~= s@);
        assert(s@.subrange(0, 0) =~= Seq::<char>::empty());
        assert(views(r@) =~= Seq::<Seq<char>>::empty());
        assert(words(s@) =~= views(r@) + words_after(s@.skip(0), s@.subrange(0, 0)));
    }
    while i < n
        invariant
            n == s@.len(),
            0 <= start <= i <= n,
            words(s@) == views(r@) + words_after(s@.skip(i as int), s@.subrange(
                start as int,
                i as int,
            )),
        decreases n - i,
    {
        let c = s.get_char(i);
        let ghost r0 = r@;
        let ghost rest = s@.skip(i as int);
        let ghost cur = s@.subrange(start as int, i as int);
        proof {
            assert(rest[0] == c);
            assert(rest.drop_first() =~= s@.skip(i + 1));
        }
        if is_space_char(c) {
            if start < i {
                let w = s.substring_char(start, i);
                r.push(w);
                proof {
                    assert(views(r@) =~= views(r0) + seq![cur]);
                }
            } else {
                proof {
                    assert(views(r@) =~= views(r0) + Seq::<Seq<char>>::empty());
                }
            }
            start = i + 1;
            proof {
                assert(s@.subrange(start as int, start as int) =~= Seq::<char>::empty());
            }
        } else {
            proof {
                assert(cur.push(c) =~= s@.subrange(start as int, i + 1));
            }
        }
        i = i + 1;
    }
    let ghost r0 = r@;
    if start < n {
        let w = s.substring_char(start, n);
        r.push(w);
        proof {
            assert(views(r@) =~= views(r0) + seq![s@.subrange(start as int, n as int)]);
        }
    }
    proof {
        assert(s@.skip(n as int) =~= Seq::<char>::empty());
        assert(views(r@) =~= words(s@));
    }
    r
}

/// Whether `a` and `b` hold the same characters.
fn same_text(a: &str, b: &str) -> (r: bool)
    ensures
        r == (a@ == b@),
{
    let n = a.unicode_len();
    if n != b.unicode_len() {
        return false;
    }
    let mut i: usize = 0;
    while i < n
        invariant
            n == a@.len(),
            n == b@.len(),
            0 <= i <= n,
            forall|k: int| 0 <= k < i ==> a@[k] == b@[k],
        decreases n - i,
    {
        if a.get_char(i) != b.get_char(i) {
            return false;
        }
        i = i + 1;
    }
    proof {
        assert(a@ =~= b@);
    }
    true
}

/// What `str::to_lowercase` makes of `s`.
pub uninterp spec fn lower_of(s: Seq<char>) -> Seq<char>;

/// Relies on `str::to_lowercase`: the result depends on the characters alone.
#[verifier::external_body]
fn lowercase(s: &str) -> (r: String)
    ensures
        r@ == lower_of(s@),
{
    s.to_lowercase()
}

/// The value of the decimal digits `d`.
pub open spec fn digits_value(d: Seq<char>) -> nat
    decreases d.len(),
{
    if d.len() == 0 {
        0
    } else {
        digits_value(d.drop_last()) * 10 + (d.last() as nat - 48) as nat
    }
}

/// `s` without its leading `+`, if it has one.
pub open spec fn unsigned_digits(s: Seq<char>) -> Seq<char> {
    if s.len() > 0 && s[0] == '+' {
        s.drop_first()
    } else {
        s
    }
}

/// Every character of `d` is an ASCII digit.
pub open spec fn all_digits(d: Seq<char>) -> bool {
    forall|i: int| 0 <= i < d.len() ==> '0' <= #[trigger] d[i] <= '9'
}

/// `s` read as an unsigned decimal number: an optional `+`, then one or more
/// ASCII digits, with a value that fits a `usize`.
pub open spec fn usize_of(s: Seq<char>) -> Option<usize> {
    let d = unsigned_digits(s);
    if d.len() > 0 && all_digits(d) && digits_value(d) <= usize::MAX {
        Some(digits_value(d) as usize)
    } else {
        None
    }
}

/// Extending a run of digits never lowers its value.
proof fn lemma_digits_grow(d: Seq<char>, k: int, m: int)
    requires
        0 <= k <= m <= d.len(),
        all_digits(d),
    ensures
        digits_value(d.subrange(0, k)) <= digits_value(d.subrange(0, m)),
    decreases m - k,
{
    if k < m {
        lemma_digits_grow(d, k, m - 1);
        assert(d.subrange(0, m).drop_last() =~= d.subrange(0, m - 1));
    }
}

/// `s` read as an unsigned decimal number (see `usize_of`).
fn parse_usize(s: &str) -> (r: Option<usize>)
    ensures
        r == usize_of(s@),
{
    let n = s.unicode_len();
    let start: usize = if n > 0 && s.get_char(0) == '+' {
        1
    } else {
        0
    };
    let ghost d = s@.subrange(start as int, n as int);
    proof {
        if start == 1 {
            assert(d =~= s@.drop_first());
        } else {
            assert(d =~= s@);
        }
    }
    if start == n {
        return None;
    }
    let mut v: usize = 0;
    let mut j: usize = start;
    proof {
        assert(d.subrange(0, 0) =~= Seq::<char>::empty());
    }
    while j < n
        invariant
            n == s@.len(),
            d == s@.subrange(start as int, n as int),
            d == unsigned_digits(s@),
            start <= j <= n,
            v == digits_value(d.subrange(0, j - start)),
            forall|k: int| 0 <= k < j - start ==> '0' <= #[trigger] d[k] <= '9',
        decreases n - j,
    {
        let c = s.get_char(j);
        proof {
            assert(d[j - start] == c);
        }
        if !('0' <= c && c <= '9') {
            proof {
                let k = j - start;
                assert(!('0' <= d[k] <= '9'));
                assert(!all_digits(d));
            }
            return None;
        }
        let ghost next = d.subrange(0, j - start + 1);
        proof {
            assert(next.drop_last() =~= d.subrange(0, j - start));
            assert(next.last() == c);
            assert(digits_value(next) == v * 10 + (c as nat - 48) as nat);
        }
        let digit = (c as u32 - 48) as usize;
        match v.checked_mul(10) {
            None => {
                proof {
                    if all_digits(d) {
                        assert(digits_value(next) > usize::MAX);
                        lemma_digits_grow(d, j - start + 1, d.len() as int);
                        assert(d.subrange(0, d.len() as int) =~= d);
                    }
                }
                return None;
            },
            Some(w) => match w.checked_add(digit) {
                None => {
                    proof {
                        if all_digits(d) {
                            assert(digits_value(next) > usize::MAX);
                        lemma_digits_grow(d, j - start + 1, d.len() as int);
                            assert(d.subrange(0, d.len() as int) =~= d);
                        }
                    }
                    return None;
                },
                Some(x) => {
                    v = x;
                },
            },
        }
        j = j + 1;
    }
    proof {
        assert(d.subrange(0, d.len() as int) =~= d);
    }
    Some(v)
}

/// An order request as a client writes it.
#[derive(Debug, Clone, Copy, PartialEq, Eq, Structural)]
pub enum Command {
    Market { side: MarketSide, quantity: usize },
    Limit { side: MarketSide, price: usize, quantity: usize },
}

/// Why a command line was refused.
#[derive(Debug, Clone, Copy, PartialEq, Eq, Structural)]
pub enum CommandError {
    /// Fewer than three words.
    TooShort,
    /// The first word is neither `buy` nor `sell`.
    InvalidSide,
    /// A market order with other than three words.
    MarketFormat,
    /// A limit order with other than four words.
    LimitFormat,
    InvalidPrice,
    InvalidQuantity,
    /// The second word is neither `market` nor `limit`.
    InvalidType,
}

/// The command that the words `w` give, where `side_word` and `kind_word`
/// are the first and second words in lower case.
pub open spec fn command_of(w: Seq<Seq<char>>, side_word: Seq<char>, kind_word: Seq<char>) -> Result<
    Command,
    CommandError,
> {
    let side = if side_word == "buy"@ {
        MarketSide::Bid
    } else {
        MarketSide::Ask
    };
    if w.len() < 3 {
        Err(CommandError::TooShort)
    } else if side_word != "buy"@ && side_word != "sell"@ {
        Err(CommandError::InvalidSide)
    } else if kind_word == "market"@ {
        if w.len() != 3 {
            Err(CommandError::MarketFormat)
        } else {
            match usize_of(w[2]) {
                None => Err(CommandError::InvalidQuantity),
                Some(quantity) => Ok(Command::Market { side, quantity }),
            }
        }
    } else if kind_word == "limit"@ {
        if w.len() != 4 {
            Err(CommandError::LimitFormat)
        } else {
            match (usize_of(w[2]), usize_of(w[3])) {
                (None, _) => Err(CommandError::InvalidPrice),
                (Some(_), None) => Err(CommandError::InvalidQuantity),
                (Some(price), Some(quantity)) => Ok(Command::Limit { side, price, quantity }),
            }
        }
    } else {
        Err(CommandError::InvalidType)
    }
}

/// The command that the line `s` gives.
pub open spec fn read_spec(s: Seq<char>) -> Result<Command, CommandError> {
    let w = words(s);
    if w.len() < 3 {
        Err(CommandError::TooShort)
    } else {
        command_of(w, lower_of(w[0]), lower_of(w[1]))
    }
}

/// Reads a command from its words, given its first two words in lower case.
pub fn parse_command(words: &Vec<&str>, side_word: &str, kind_word: &str) -> (r: Result<
    Command,
    CommandError,
>)
    ensures
        r == command_of(views(words@), side_word@, kind_word@),
{
    let ghost w = views(words@);
    let n = words.len();
    if n < 3 {
        return Err(CommandError::TooShort);
    }
    let is_buy = same_text(side_word, "buy");
    if !is_buy && !same_text(side_word, "sell") {
        return Err(CommandError::InvalidSide);
    }
    let side = if is_buy {
        MarketSide::Bid
    } else {
        MarketSide::Ask
    };
    proof {
        assert(w[2] == words@[2]@);
    }
    if same_text(kind_word, "market") {
        if n != 3 {
            return Err(CommandError::MarketFormat);
        }
        match parse_usize(words[2]) {
            None => Err(CommandError::InvalidQuantity),
            Some(quantity) => Ok(Command::Market { side, quantity }),
        }
    } else if same_text(kind_word, "limit") {
        if n != 4 {
            return Err(CommandError::LimitFormat);
        }
        proof {
            assert(w[3] == words@[3]@);
        }
        match parse_usize(words[2]) {
            None => Err(CommandError::InvalidPrice),
            Some(price) => match parse_usize(words[3]) {
                None => Err(CommandError::InvalidQuantity),
                Some(quantity) => Ok(Command::Limit { side, price, quantity }),
            },
        }
    } else {
        Err(CommandError::InvalidType)
    }
}

/// Reads a command from a line of text.
pub fn read_command(input: &str) -> (r: Result<Command, CommandError>)
    ensures
        r == read_spec(input@),
{
    let words = split_words(input);
    if words.len() < 3 {
        return Err(CommandError::TooShort);
    }
    let side_word = lowercase(words[0]);
    let kind_word = lowercase(words[1]);
    proof {
        assert(views(words@)[0] == words@[0]@);
        assert(views(words@)[1] == words@[1]@);
    }
    parse_command(&words, side_word.as_str(), kind_word.as_str())
}

pub open spec fn side_text(side: MarketSide) -> Seq<char> {
    match side {
        MarketSide::Bid => "buy"@,
        MarketSide::Ask => "sell"@,
    }
}

/// The canonical line of a command, with numbers in plain decimal.
pub open spec fn command_text(c: Command) -> Seq<char> {
    match c {
        Command::Market { side, quantity } => side_text(side) + " market "@ + decimal(
            quantity as nat,
        ),
        Command::Limit { side, price, quantity } => side_text(side) + " limit "@ + decimal(
            price as nat,
        ) + " "@ + decimal(quantity as nat),
    }
}

pub open spec fn error_text(e: CommandError) -> Seq<char> {
    match e {
        CommandError::TooShort => "Comanda prea scurtă"@,
        CommandError::InvalidSide => "invalid side: choose 'buy' or 'sell'"@,
        CommandError::MarketFormat => "Format market: buy/sell market <qty>"@,
        CommandError::LimitFormat => "Format limit: buy/sell limit <price> <qty>"@,
        CommandError::InvalidPrice => "Invalid price"@,
        CommandError::InvalidQuantity => "Invalid quantity"@,
        CommandError::InvalidType => "Invalid order type: choose 'market' or 'limit'"@,
    }
}

impl Command {
    pub fn text(&self) -> (r: String)
        ensures
            r@ == command_text(*self),
    {
        match *self {
            Command::Market { side, quantity } => {
                let mut s = match side {
                    MarketSide::Bid => String::from_str("buy"),
                    MarketSide::Ask => String::from_str("sell"),
                };
                s.append(" market ");
                let q = decimal_string(quantity);
                s.append(q.as_str());
                s
            },
            Command::Limit { side, price, quantity } => {
                let mut s = match side {
                    MarketSide::Bid => String::from_str("buy"),
                    MarketSide::Ask => String::from_str("sell"),
                };
                s.append(" limit ");
                let p = decimal_string(price);
                s.append(p.as_str());
                s.append(" ");
                let q = decimal_string(quantity);
                s.append(q.as_str());
                s
            },
        }
    }
}

impl CommandError {
    pub fn text(&self) -> (r: String)
        ensures
            r@ == error_text(*self),
    {
        match *self {
            CommandError::TooShort => String::from_str("Comanda prea scurtă"),
            CommandError::InvalidSide => String::from_str("invalid side: choose 'buy' or 'sell'"),
            CommandError::MarketFormat => String::from_str("Format market: buy/sell market <qty>"),
            CommandError::LimitFormat => String::from_str(
                "Format limit: buy/sell limit <price> <qty>",
            ),
            CommandError::InvalidPrice => String::from_str("Invalid price"),
            CommandError::InvalidQuantity => String::from_str("Invalid quantity"),
            CommandError::InvalidType => String::from_str(
                "Invalid order type: choose 'market' or 'limit'",
            ),
        }
    }
}

/// Checks a command line before it is sent: its canonical form, or why it
/// was refused.
pub fn validate_input(input: &str) -> (r: Result<String, String>)
    ensures
        match (r, read_spec(input@)) {
            (Ok(t), Ok(c)) => t@ == command_text(c),
            (Err(t), Err(e)) => t@ == error_text(e),
            _ => false,
        },
{
    match read_command(input) {
        Ok(c) => Ok(c.text()),
        Err(e) => Err(e.text()),
    }
}

/// The order that command `c` asks for, placed by `client` at `timestamp`;
/// none where its quantity or price is zero.
pub open spec fn order_of(c: Command, client: ClientId, timestamp: Timestamp) -> Option<Orders> {
    match c {
        Command::Market { side, quantity } => if quantity == 0 {
            None
        } else {
            Some(
                Orders::Market(
                    MarketOrder { timestamp, size: quantity, fill_size: 0, side, client },
                ),
            )
        },
        Command::Limit { side, price, quantity } => if quantity == 0 || price == 0 {
            None
        } else {
            Some(
                Orders::Limit(
                    LimitOrder { timestamp, size: quantity, fill_size: 0, side, price, client },
                ),
            )
        },
    }
}

/// The order that `command` asks for, placed by `client` at `timestamp`.
pub fn order_from(command: Command, client: ClientId, timestamp: Timestamp) -> (r: Option<Orders>)
    ensures
        r == order_of(command, client, timestamp),
        r matches Some(o) ==> order_valid(o),
{
    match command {
        Command::Market { side, quantity } => {
            if quantity == 0 {
                None
            } else {
                Some(Orders::Market(MarketOrder::new(timestamp, quantity, 0, side, client)))
            }
        },
        Command::Limit { side, price, quantity } => {
            if quantity == 0 || price == 0 {
                None
            } else {
                Some(Orders::Limit(LimitOrder::new(timestamp, quantity, 0, side, price, client)))
            }
        },
    }
}

/// The order that a client's command line asks for, stamped with the current
/// time; none where the line is malformed.
pub fn create_order(input: &str, client: ClientId) -> (r: Option<Orders>)
    ensures
        match read_spec(input@) {
            Err(_) => r is None,
            Ok(c) => exists|timestamp: Timestamp| r == order_of(c, client, timestamp),
        },
        r matches Some(o) ==> order_valid(o),
{
    match read_command(input) {
        Err(_) => None,
        Ok(c) => {
            let timestamp = now();
            order_from(c, client, timestamp)
        },
    }
}

} // verus!
