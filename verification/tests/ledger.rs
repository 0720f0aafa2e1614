use expense_manager::codec::{decode_tx, encode_tx};
use expense_manager::commands::build_transaction;
use expense_manager::report::{fmt_cents, render_report, report};
use expense_manager::store::Store;
use expense_manager::transaction::{Category, Currency, Item, Timestamp, Transaction};

fn item(name: Option<&str>, cents: i64) -> Item {
    Item {
        name: name.map(|s| s.as_bytes().to_vec()),
        amount: cents,
    }
}

fn tx(name: &str, category: Category, currency: Currency, items: Vec<Item>) -> Transaction {
    build_transaction(
        name.as_bytes().to_vec(),
        category,
        currency,
        Timestamp {
            seconds: 1700000000,
            nanos: 0,
        },
        None,
        items,
    )
    .expect("the transaction should be storable")
}

fn assert_same_tx(a: &Transaction, b: &Transaction) {
    assert_eq!(a.name, b.name);
    assert_eq!(a.category, b.category);
    assert_eq!(a.currency, b.currency);
    assert_eq!(a.original_date, b.original_date);
    assert_eq!(a.recurrence, b.recurrence);
    assert_eq!(a.items.len(), b.items.len());
    for (x, y) in a.items.iter().zip(b.items.iter()) {
        assert_eq!(x.name, y.name);
        assert_eq!(x.amount, y.amount);
    }
}

#[test]
fn encode_decode_round_trip() {
    let t = tx(
        "Rent",
        Category::Rent,
        Currency::Usd,
        vec![item(None, -1250)],
    );
    let line = encode_tx(&t);
    let back = decode_tx(&line).expect("an encoded record should decode");
    assert_same_tx(&t, &back);
}

#[test]
fn encode_decode_escaped_name() {
    let t = tx(
        "say \"hi\" \\ there",
        Category::Cash,
        Currency::Cad,
        vec![item(Some("a\"b\\c"), 99)],
    );
    let line = encode_tx(&t);
    let back = decode_tx(&line).expect("an encoded record should decode");
    assert_same_tx(&t, &back);
}

#[test]
fn encoded_line_is_exact_json() {
    let t = tx(
        "Rent",
        Category::Rent,
        Currency::Usd,
        vec![item(None, -1250)],
    );
    let line = encode_tx(&t);
    let expect = "{\"name\":\"Rent\",\"category\":3,\"currency\":1,\"seconds\":1700000000,\
                  \"nanos\":0,\"recurrence\":null,\"items\":[{\"name\":null,\"amount\":-1250}]}";
    assert_eq!(String::from_utf8(line).unwrap(), expect);
}

#[test]
fn store_replay_preserves_order_and_fields() {
    let mut store = Store::new();
    let a = tx("One", Category::Gas, Currency::Usd, vec![item(None, -100)]);
    let b = tx("Two", Category::Cash, Currency::Cad, vec![item(None, 200)]);
    let c = tx(
        "Three",
        Category::Utility,
        Currency::Usd,
        vec![item(Some("x"), -300), item(None, -1)],
    );
    store.append(&a);
    store.append(&b);
    store.append(&c);
    let ts = store.read().expect("every appended record should decode");
    assert_eq!(ts.len(), 3);
    assert_same_tx(&ts[0], &a);
    assert_same_tx(&ts[1], &b);
    assert_same_tx(&ts[2], &c);
}

#[test]
fn reading_twice_gives_identical_output() {
    let mut store = Store::new();
    store.append(&tx(
        "Lunch",
        Category::FoodAndDrink,
        Currency::Usd,
        vec![item(None, -875)],
    ));
    store.append(&tx(
        "Paycheck",
        Category::Cash,
        Currency::Usd,
        vec![item(None, 50000)],
    ));
    let first = store.read().expect("the store should decode");
    let second = store.read().expect("the store should decode");
    assert_eq!(first.len(), second.len());
    for (x, y) in first.iter().zip(second.iter()) {
        assert_same_tx(x, y);
    }
    let r1 = report(&first);
    let r2 = report(&second);
    assert_eq!(r1.total, r2.total);
    assert_eq!(r1.entries.len(), r2.entries.len());
}

#[test]
fn empty_store_yields_zero_total_and_no_lines() {
    let store = Store::new();
    let ts = store.read().expect("an empty store reads back");
    assert_eq!(ts.len(), 0);
    let r = report(&ts);
    assert_eq!(r.total, 0);
    assert!(r.entries.is_empty());
}

#[test]
fn rent_cost_scenario() {
    let mut store = Store::new();
    store.append(&tx(
        "Rent",
        Category::Rent,
        Currency::Usd,
        vec![item(None, -1250)],
    ));
    let ts = store.read().unwrap();
    let r = report(&ts);
    assert_eq!(r.entries.len(), 1);
    let entry = &r.entries[0];
    assert!(entry.is_cost);
    assert_eq!(entry.net_abs, 1250);
    assert_eq!(entry.name, b"Rent".to_vec());
    assert_eq!(r.total, -1250);
    assert_eq!(fmt_cents(r.total), b"-12.50".to_vec());
}

#[test]
fn paycheck_then_rent_scenario() {
    let mut store = Store::new();
    store.append(&tx(
        "Paycheck",
        Category::Cash,
        Currency::Usd,
        vec![item(None, 50000)],
    ));
    store.append(&tx(
        "Rent",
        Category::Rent,
        Currency::Usd,
        vec![item(None, -1250)],
    ));
    let ts = store.read().unwrap();
    let r = report(&ts);
    assert_eq!(r.total, 48750);
    assert_eq!(fmt_cents(r.total), b"487.50".to_vec());
    assert!(!r.entries[0].is_cost);
    assert_eq!(r.entries[0].net_abs, 50000);
    assert!(r.entries[1].is_cost);
}

#[test]
fn unnamed_item_falls_back_to_transaction_name() {
    let t = tx(
        "Dinner",
        Category::FoodAndDrink,
        Currency::Usd,
        vec![item(Some("Tip"), -200), item(None, -1000)],
    );
    let r = report(&vec![t]);
    let entry = &r.entries[0];
    assert!(entry.is_cost);
    assert_eq!(entry.item_lines.len(), 2);
    assert_eq!(entry.item_lines[0].amount_abs, 200);
    assert_eq!(entry.item_lines[0].name, b"Tip".to_vec());
    assert_eq!(entry.item_lines[1].amount_abs, 1000);
    assert_eq!(entry.item_lines[1].name, b"Dinner".to_vec());
}

#[test]
fn profit_entry_has_no_item_lines() {
    let t = tx(
        "Paycheck",
        Category::Cash,
        Currency::Usd,
        vec![item(Some("Salary"), 40000), item(None, 10000)],
    );
    let r = report(&vec![t]);
    assert!(!r.entries[0].is_cost);
    assert!(r.entries[0].item_lines.is_empty());
}

#[test]
fn zero_net_renders_as_profit() {
    let t = tx(
        "Wash",
        Category::Cash,
        Currency::Usd,
        vec![item(None, -500), item(None, 500)],
    );
    let r = report(&vec![t]);
    assert!(!r.entries[0].is_cost);
    assert_eq!(r.entries[0].net_abs, 0);
    assert_eq!(r.total, 0);
}

#[test]
fn invalid_line_fails_the_whole_listing() {
    let good = encode_tx(&tx(
        "Ok",
        Category::Gas,
        Currency::Usd,
        vec![item(None, -1)],
    ));
    let store = Store::from_lines(vec![good, b"not a record".to_vec()]);
    match store.read() {
        Ok(_) => panic!("a corrupt record must fail the read"),
        Err(i) => assert_eq!(i, 1),
    }
}

#[test]
fn decode_rejects_near_misses() {
    let t = tx("Ok", Category::Gas, Currency::Usd, vec![item(None, -1)]);
    let line = encode_tx(&t);
    let mut trailing = line.clone();
    trailing.push(b' ');
    assert!(decode_tx(&trailing).is_none());
    let mut truncated = line.clone();
    truncated.pop();
    assert!(decode_tx(&truncated).is_none());
    assert!(decode_tx(&b"".to_vec()).is_none());
    assert!(decode_tx(&b"{}".to_vec()).is_none());
    let bad_category = "{\"name\":\"x\",\"category\":9,\"currency\":1,\"seconds\":0,\
                        \"nanos\":0,\"items\":[{\"name\":null,\"amount\":1}]}";
    assert!(decode_tx(&bad_category.as_bytes().to_vec()).is_none());
}

#[test]
fn rendered_listing_lines() {
    let dinner = tx(
        "Dinner",
        Category::FoodAndDrink,
        Currency::Usd,
        vec![item(Some("Tip"), -200), item(None, -1000)],
    );
    let paycheck = tx(
        "Paycheck",
        Category::Cash,
        Currency::Usd,
        vec![item(None, 50000)],
    );
    let r = report(&vec![paycheck, dinner]);
    let lines: Vec<String> = render_report(&r)
        .into_iter()
        .map(|l| String::from_utf8(l).unwrap())
        .collect();
    assert_eq!(
        lines,
        vec![
            "+500.00 Paycheck",
            "-12.00 Dinner",
            "  2.00 Tip",
            "  10.00 Dinner",
            "488.00",
        ]
    );
}

#[test]
fn rendered_empty_listing_is_only_the_total() {
    let r = report(&Vec::new());
    let lines = render_report(&r);
    assert_eq!(lines.len(), 1);
    assert_eq!(lines[0], b"0.00".to_vec());
}

#[test]
fn fmt_cents_exact_values() {
    assert_eq!(fmt_cents(0), b"0.00".to_vec());
    assert_eq!(fmt_cents(-5), b"-0.05".to_vec());
    assert_eq!(fmt_cents(1250), b"12.50".to_vec());
    assert_eq!(fmt_cents(-1250), b"-12.50".to_vec());
    assert_eq!(fmt_cents(100), b"1.00".to_vec());
    assert_eq!(fmt_cents(99), b"0.99".to_vec());
}

#[test]
fn recurrence_when_set_round_trips() {
    let mut t = tx(
        "Weekly",
        Category::Rent,
        Currency::Usd,
        vec![item(None, -100)],
    );
    t.recurrence = Some(Timestamp {
        seconds: 604800,
        nanos: 7,
    });
    let back = decode_tx(&encode_tx(&t)).unwrap();
    assert_same_tx(&t, &back);
}

#[test]
fn invalid_currency_sentinel_round_trips() {
    let t = tx(
        "Odd",
        Category::Equity,
        Currency::InvalidCurrency,
        vec![item(None, 1)],
    );
    let back = decode_tx(&encode_tx(&t)).unwrap();
    assert_eq!(back.currency, Currency::InvalidCurrency);
}
