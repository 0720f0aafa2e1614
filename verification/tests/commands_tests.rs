use expense_manager::commands::{
    build_transaction, categories_for, category_from_choice, currency_from_choice, get_tree,
    make_item, trim_bytes,
};
use expense_manager::transaction::{Category, Currency, Item, Timestamp};
use expense_manager::tree::{Action, Node};

#[test]
fn menu_tree_topology_and_steps() {
    let t = get_tree();
    assert_eq!(t.nodes.len(), 4);
    assert_eq!(t.nodes[0].action, Action::Menu);
    assert_eq!(t.nodes[1].action, Action::List);
    assert_eq!(t.nodes[2].action, Action::Touch);
    assert_eq!(t.nodes[3].action, Action::Quit);
    assert_eq!(t.step(0, 0), Some(1));
    assert_eq!(t.step(0, 1), Some(2));
    assert_eq!(t.step(0, 2), Some(3));
    assert_eq!(t.step(0, 3), None);
    assert_eq!(t.step(1, 0), Some(0));
    assert_eq!(t.step(2, 0), Some(0));
    assert_eq!(t.step(3, 0), None);
}

#[test]
fn node_links_children_in_order() {
    let mut n = Node::new(Action::Menu);
    assert_eq!(n.run(0), None);
    n.add_child(7);
    n.add_child(2);
    assert_eq!(n.run(0), Some(7));
    assert_eq!(n.run(1), Some(2));
    assert_eq!(n.run(2), None);
}

#[test]
fn category_menus_split_by_sign() {
    assert_eq!(
        categories_for(true),
        vec![
            Category::Gas,
            Category::FoodAndDrink,
            Category::Rent,
            Category::Utility
        ]
    );
    assert_eq!(
        categories_for(false),
        vec![
            Category::Cash,
            Category::Equity,
            Category::TaxableBenefit,
            Category::Reimbursement
        ]
    );
    assert_eq!(category_from_choice(true, 2), Some(Category::Rent));
    assert_eq!(
        category_from_choice(false, 2),
        Some(Category::TaxableBenefit)
    );
    assert_eq!(category_from_choice(true, 4), None);
}

#[test]
fn currency_menu_order() {
    assert_eq!(currency_from_choice(0), Some(Currency::Usd));
    assert_eq!(currency_from_choice(1), Some(Currency::Cad));
    assert_eq!(currency_from_choice(2), None);
}

#[test]
fn make_item_flips_sign_and_trims() {
    let it = make_item(true, 200, b"  Tip  ".to_vec()).unwrap();
    assert_eq!(it.amount, -200);
    assert_eq!(it.name, Some(b"Tip".to_vec()));
    let it = make_item(false, 200, b"   ".to_vec()).unwrap();
    assert_eq!(it.amount, 200);
    assert_eq!(it.name, None);
}

#[test]
fn make_item_rejects_out_of_range_amounts() {
    assert!(make_item(true, 10_000_000_000_000, b"big".to_vec()).is_some());
    assert!(make_item(true, 10_000_000_000_001, b"too big".to_vec()).is_none());
    assert!(make_item(true, 1, b"control\x01byte".to_vec()).is_none());
}

#[test]
fn trim_strips_ascii_whitespace_only() {
    assert_eq!(trim_bytes(&b" \t a b \r\n".to_vec()), b"a b".to_vec());
    assert_eq!(trim_bytes(&b"".to_vec()), b"".to_vec());
    assert_eq!(trim_bytes(&b"x".to_vec()), b"x".to_vec());
}

#[test]
fn build_transaction_rejects_bad_input() {
    let date = Timestamp {
        seconds: 0,
        nanos: 0,
    };
    let ok_item = Item {
        name: None,
        amount: -1,
    };
    assert!(build_transaction(
        b"".to_vec(),
        Category::Gas,
        Currency::Usd,
        date,
        None,
        vec![Item {
            name: None,
            amount: -1
        }]
    )
    .is_none());
    assert!(build_transaction(
        b"x".to_vec(),
        Category::Gas,
        Currency::Usd,
        date,
        None,
        vec![]
    )
    .is_none());
    assert!(build_transaction(
        b"with\nnewline".to_vec(),
        Category::Gas,
        Currency::Usd,
        date,
        None,
        vec![ok_item]
    )
    .is_none());
}
