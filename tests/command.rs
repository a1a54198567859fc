use orderbook::command::{
    create_order, order_from, parse_command, read_command, split_words, validate_input, Command,
    CommandError,
};
use orderbook::orders::{LimitOrder, MarketOrder, MarketSide, Orders, Timestamp};

#[test]
fn words_are_split_on_any_whitespace() {
    assert_eq!(split_words("  buy \t limit\n100  5 "), vec!["buy", "limit", "100", "5"]);
    assert_eq!(split_words("a\u{3000}b\u{a0}c"), vec!["a", "b", "c"]);
    assert!(split_words(" \t\n").is_empty());
    assert!(split_words("").is_empty());
}

#[test]
fn valid_commands_are_normalised() {
    assert_eq!(validate_input("buy market 5"), Ok("buy market 5".to_string()));
    assert_eq!(validate_input("  SELL Limit 100 +07\n"), Ok("sell limit 100 7".to_string()));
    assert_eq!(validate_input("Buy\tMARKET\t0012"), Ok("buy market 12".to_string()));
}

#[test]
fn each_error_has_its_message() {
    assert_eq!(validate_input("buy market"), Err("Comanda prea scurtă".to_string()));
    assert_eq!(validate_input(""), Err("Comanda prea scurtă".to_string()));
    assert_eq!(
        validate_input("hold market 5"),
        Err("invalid side: choose 'buy' or 'sell'".to_string())
    );
    assert_eq!(
        validate_input("buy market 5 6"),
        Err("Format market: buy/sell market <qty>".to_string())
    );
    assert_eq!(
        validate_input("buy limit 5"),
        Err("Format limit: buy/sell limit <price> <qty>".to_string())
    );
    assert_eq!(validate_input("buy limit x 5"), Err("Invalid price".to_string()));
    assert_eq!(validate_input("buy limit 5 x"), Err("Invalid quantity".to_string()));
    assert_eq!(validate_input("sell market -5"), Err("Invalid quantity".to_string()));
    assert_eq!(validate_input("sell market +"), Err("Invalid quantity".to_string()));
    assert_eq!(
        validate_input("sell market 99999999999999999999999"),
        Err("Invalid quantity".to_string())
    );
    assert_eq!(
        validate_input("buy stop 5"),
        Err("Invalid order type: choose 'market' or 'limit'".to_string())
    );
}

#[test]
fn parse_command_takes_lowered_words() {
    let words = vec!["BUY", "LIMIT", "100", "5"];
    assert_eq!(
        parse_command(&words, "buy", "limit"),
        Ok(Command::Limit { side: MarketSide::Bid, price: 100, quantity: 5 })
    );
    assert_eq!(parse_command(&words, "BUY", "limit"), Err(CommandError::InvalidSide));
    assert_eq!(
        parse_command(&vec!["x", "y", "3"], "sell", "market"),
        Ok(Command::Market { side: MarketSide::Ask, quantity: 3 })
    );
}

#[test]
fn read_command_lowers_case() {
    assert_eq!(
        read_command("SeLL MaRkEt 4"),
        Ok(Command::Market { side: MarketSide::Ask, quantity: 4 })
    );
    assert_eq!(read_command("sell"), Err(CommandError::TooShort));
}

#[test]
fn command_and_error_texts() {
    assert_eq!(
        Command::Limit { side: MarketSide::Ask, price: 101, quantity: 20 }.text(),
        "sell limit 101 20"
    );
    assert_eq!(Command::Market { side: MarketSide::Bid, quantity: 0 }.text(), "buy market 0");
    assert_eq!(CommandError::InvalidPrice.text(), "Invalid price");
}

#[test]
fn orders_from_commands() {
    let t = Timestamp { micros: 5 };
    assert_eq!(
        order_from(Command::Limit { side: MarketSide::Bid, price: 100, quantity: 5 }, 3, t),
        Some(Orders::Limit(LimitOrder::new(t, 5, 0, MarketSide::Bid, 100, 3)))
    );
    assert_eq!(
        order_from(Command::Market { side: MarketSide::Ask, quantity: 2 }, 4, t),
        Some(Orders::Market(MarketOrder::new(t, 2, 0, MarketSide::Ask, 4)))
    );
    assert_eq!(order_from(Command::Market { side: MarketSide::Ask, quantity: 0 }, 4, t), None);
    assert_eq!(
        order_from(Command::Limit { side: MarketSide::Ask, price: 0, quantity: 1 }, 4, t),
        None
    );
}

#[test]
fn create_order_from_a_line() {
    match create_order("sell limit 120 7\n", 9) {
        Some(Orders::Limit(o)) => {
            assert_eq!(
                (o.side(), o.price(), o.size(), o.fill_size(), o.client()),
                (MarketSide::Ask, 120, 7, 0, 9)
            );
            assert!(o.timestamp().micros > 0);
        },
        other => panic!("unexpected {:?}", other),
    }
    match create_order("BUY market 3", 2) {
        Some(Orders::Market(o)) => {
            assert_eq!((o.side(), o.size(), o.fill_size(), o.client()), (MarketSide::Bid, 3, 0, 2))
        },
        other => panic!("unexpected {:?}", other),
    }
    assert_eq!(create_order("buy market zero", 1), None);
    assert_eq!(create_order("buy market 0", 1), None);
    assert_eq!(create_order("", 1), None);
}

#[test]
fn quantities_up_to_the_largest_usize() {
    let max = usize::MAX.to_string();
    assert_eq!(validate_input(&format!("buy market {max}")), Ok(format!("buy market {max}")));
    assert_eq!(validate_input("buy market +0"), Ok("buy market 0".to_string()));
    let over = format!("{}0", usize::MAX / 10 + 1);
    assert_eq!(validate_input(&format!("buy market {over}")), Err("Invalid quantity".to_string()));
    let just_over = "18446744073709551616";
    if usize::MAX as u128 == u64::MAX as u128 {
        assert_eq!(
            validate_input(&format!("sell limit {just_over} 1")),
            Err("Invalid price".to_string())
        );
    }
    assert_eq!(validate_input("sell limit 12a 1"), Err("Invalid price".to_string()));
    assert_eq!(validate_input("sell limit ++1 1"), Err("Invalid price".to_string()));
}
