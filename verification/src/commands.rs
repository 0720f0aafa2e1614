//! The tool's commands: the menu graph, the category and currency menus,
//! and the transaction builder's pure steps. The interactive prompts and
//! the file I/O stay outside the library; everything here computes from
//! plain answers.

use vstd::prelude::*;

use crate::transaction::{
    clean_bytes, item_wf, sum_amounts, sum_items, tx_wf, Category, Currency, Item, Timestamp,
    Transaction, AMOUNT_LIMIT, NET_LIMIT,
};
use crate::tree::{Action, Node, Tree};

verus! {

/// Builds the menu graph: node 0 is the root menu with the `ls`, `touch`
/// and `quit` branches at choices 0, 1 and 2; the two working branches
/// loop back to the root, and `quit` has no children.
pub fn get_tree() -> (t: Tree)
    ensures
        t.wf(),
        t.nodes@.len() == 4,
        t.nodes@[0].action == Action::Menu,
        t.nodes@[0].children@ == seq![1usize, 2usize, 3usize],
        t.nodes@[1].action == Action::List,
        t.nodes@[1].children@ == seq![0usize],
        t.nodes@[2].action == Action::Touch,
        t.nodes@[2].children@ == seq![0usize],
        t.nodes@[3].action == Action::Quit,
        t.nodes@[3].children@ == Seq::<usize>::empty(),
{
    let mut root = Node::new(Action::Menu);
    root.add_child(1);
    root.add_child(2);
    root.add_child(3);
    let mut ls_branch = Node::new(Action::List);
    ls_branch.add_child(0);
    let mut touch_branch = Node::new(Action::Touch);
    touch_branch.add_child(0);
    let quit = Node::new(Action::Quit);
    let mut nodes: Vec<Node> = Vec::new();
    nodes.push(root);
    nodes.push(ls_branch);
    nodes.push(touch_branch);
    nodes.push(quit);
    let t = Tree { nodes };
    proof {
        assert(t.nodes@[0].children@ =~= seq![1usize, 2usize, 3usize]);
        assert(t.nodes@[1].children@ =~= seq![0usize]);
        assert(t.nodes@[2].children@ =~= seq![0usize]);
        assert(t.nodes@[3].children@ =~= Seq::<usize>::empty());
    }
    t
}

/// The four categories offered once the cost-or-profit choice is made,
/// in menu order.
pub open spec fn categories_spec(is_cost: bool) -> Seq<Category> {
    if is_cost {
        seq![Category::Gas, Category::FoodAndDrink, Category::Rent, Category::Utility]
    } else {
        seq![Category::Cash, Category::Equity, Category::TaxableBenefit, Category::Reimbursement]
    }
}

/// The category menu for a cost or a profit.
pub fn categories_for(is_cost: bool) -> (v: Vec<Category>)
    ensures
        v@ == categories_spec(is_cost),
{
    let mut v: Vec<Category> = Vec::new();
    if is_cost {
        v.push(Category::Gas);
        v.push(Category::FoodAndDrink);
        v.push(Category::Rent);
        v.push(Category::Utility);
    } else {
        v.push(Category::Cash);
        v.push(Category::Equity);
        v.push(Category::TaxableBenefit);
        v.push(Category::Reimbursement);
    }
    proof {
        assert(v@ =~= categories_spec(is_cost));
    }
    v
}

/// Maps the category menu selection to the category it names.
pub fn category_from_choice(is_cost: bool, choice: usize) -> (r: Option<Category>)
    ensures
        r == (if choice < 4 {
            Some(categories_spec(is_cost)[choice as int])
        } else {
            None::<Category>
        }),
{
    let menu = categories_for(is_cost);
    if choice < 4 {
        Some(menu[choice])
    } else {
        None
    }
}

/// Maps the currency menu selection: USD first, CAD second.
pub fn currency_from_choice(choice: usize) -> (r: Option<Currency>)
    ensures
        r == (if choice == 0 {
            Some(Currency::Usd)
        } else if choice == 1 {
            Some(Currency::Cad)
        } else {
            None::<Currency>
        }),
{
    if choice == 0 {
        Some(Currency::Usd)
    } else if choice == 1 {
        Some(Currency::Cad)
    } else {
        None
    }
}

pub open spec fn is_ws(b: u8) -> bool {
    b == 0x20 || b == 0x09 || b == 0x0a || b == 0x0d
}

pub open spec fn trim_front(s: Seq<u8>) -> Seq<u8>
    decreases s.len(),
{
    if s.len() > 0 && is_ws(s[0]) {
        trim_front(s.subrange(1, s.len() as int))
    } else {
        s
    }
}

pub open spec fn trim_back(s: Seq<u8>) -> Seq<u8>
    decreases s.len(),
{
    if s.len() > 0 && is_ws(s.last()) {
        trim_back(s.drop_last())
    } else {
        s
    }
}

/// ASCII whitespace stripped from both ends.
pub open spec fn trim_spec(s: Seq<u8>) -> Seq<u8> {
    trim_back(trim_front(s))
}

proof fn lemma_trim_front_at(s: Seq<u8>, lo: int)
    requires
        0 <= lo <= s.len(),
        forall|k: int| 0 <= k < lo ==> is_ws(s[k]),
        lo == s.len() || !is_ws(s[lo]),
    ensures
        trim_front(s) == s.subrange(lo, s.len() as int),
    decreases lo,
{
    if lo == 0 {
        assert(s.subrange(0, s.len() as int) =~= s);
    } else {
        let s1 = s.subrange(1, s.len() as int);
        lemma_trim_front_at(s1, lo - 1);
        assert(s1.subrange(lo - 1, s1.len() as int) =~= s.subrange(lo, s.len() as int));
    }
}

proof fn lemma_trim_back_at(s: Seq<u8>, hi: int)
    requires
        0 <= hi <= s.len(),
        forall|k: int| hi <= k < s.len() ==> is_ws(s[k]),
        hi == 0 || !is_ws(s[hi - 1]),
    ensures
        trim_back(s) == s.subrange(0, hi),
    decreases s.len() - hi,
{
    if hi == s.len() {
        assert(s.subrange(0, hi) =~= s);
    } else {
        let sd = s.drop_last();
        assert(is_ws(s.last()));
        lemma_trim_back_at(sd, hi);
        assert(sd.subrange(0, hi) =~= s.subrange(0, hi));
    }
}

/// Strips ASCII whitespace from both ends of a byte string.
pub fn trim_bytes(v: &Vec<u8>) -> (r: Vec<u8>)
    ensures
        r@ == trim_spec(v@),
{
    let n = v.len();
    let mut lo: usize = 0;
    while lo < n && (v[lo] == 0x20 || v[lo] == 0x09 || v[lo] == 0x0a || v[lo] == 0x0d)
        invariant
            lo <= n,
            n == v@.len(),
            forall|k: int| 0 <= k < lo ==> is_ws(v@[k]),
        decreases n - lo,
    {
        lo += 1;
    }
    let mut hi: usize = n;
    while hi > lo && (v[hi - 1] == 0x20 || v[hi - 1] == 0x09 || v[hi - 1] == 0x0a || v[hi - 1]
        == 0x0d)
        invariant
            lo <= hi <= n,
            n == v@.len(),
            forall|k: int| hi <= k < n ==> is_ws(v@[k]),
        decreases hi,
    {
        hi -= 1;
    }
    let mut out: Vec<u8> = Vec::new();
    let mut k: usize = lo;
    while k < hi
        invariant
            lo <= k <= hi <= n,
            n == v@.len(),
            out@ == v@.subrange(lo as int, k as int),
        decreases hi - k,
    {
        out.push(v[k]);
        proof {
            assert(out@ =~= v@.subrange(lo as int, k + 1 as int));
        }
        k += 1;
    }
    proof {
        lemma_trim_front_at(v@, lo as int);
        let tf = v@.subrange(lo as int, n as int);
        assert forall|q: int| hi - lo <= q < tf.len() implies is_ws(tf[q]) by {
            assert(tf[q] == v@[lo + q]);
        }
        if hi > lo {
            assert(tf[hi - lo - 1] == v@[hi - 1]);
        }
        lemma_trim_back_at(tf, hi - lo as int);
        assert(tf.subrange(0, hi - lo as int) =~= v@.subrange(lo as int, hi as int));
        assert(out@ =~= trim_spec(v@));
    }
    out
}

/// True exactly when every byte can stand in a stored name.
pub fn bytes_clean(v: &Vec<u8>) -> (r: bool)
    ensures
        r == clean_bytes(v@),
{
    let mut k: usize = 0;
    while k < v.len()
        invariant
            k <= v@.len(),
            forall|j: int| 0 <= j < k ==> v@[j] >= 0x20,
        decreases v@.len() - k,
    {
        if v[k] < 0x20 {
            proof {
                assert(!clean_bytes(v@));
            }
            return false;
        }
        k += 1;
    }
    true
}

fn check_item(it: &Item) -> (r: bool)
    ensures
        r == item_wf(it@),
{
    if it.amount < -AMOUNT_LIMIT || it.amount > AMOUNT_LIMIT {
        return false;
    }
    match &it.name {
        Some(n) => bytes_clean(n),
        None => true,
    }
}

/// Builds one item from the builder's answers: the magnitude the user
/// entered is sign-flipped for a cost, the name is trimmed, and an empty
/// trimmed name means the item falls back to the transaction's name.
/// Fails exactly when the magnitude is over the per-item bound or the
/// trimmed name holds a byte that cannot be stored.
pub fn make_item(is_cost: bool, magnitude: i64, raw_name: Vec<u8>) -> (r: Option<Item>)
    requires
        magnitude >= 0,
    ensures
        r is Some <==> (magnitude <= AMOUNT_LIMIT && clean_bytes(trim_spec(raw_name@))),
        match r {
            Some(it) => it@.amount == (if is_cost {
                -(magnitude as int)
            } else {
                magnitude as int
            }) && it@.name == (if trim_spec(raw_name@).len() == 0 {
                None::<Seq<u8>>
            } else {
                Some(trim_spec(raw_name@))
            }) && item_wf(it@),
            None => true,
        },
{
    if magnitude > AMOUNT_LIMIT {
        return None;
    }
    let trimmed = trim_bytes(&raw_name);
    if !bytes_clean(&trimmed) {
        return None;
    }
    let amount: i64 = if is_cost {
        -magnitude
    } else {
        magnitude
    };
    let name: Option<Vec<u8>> = if trimmed.len() == 0 {
        None
    } else {
        Some(trimmed)
    };
    Some(Item { name, amount })
}

/// Assembles one full transaction from the builder's answers. Succeeds
/// exactly when the name is non-empty and storable, at least one item is
/// present, every item is in bounds, and the net amount is within the
/// ledger's range; on failure nothing of the partial transaction is kept.
pub fn build_transaction(
    name: Vec<u8>,
    category: Category,
    currency: Currency,
    date: Timestamp,
    recurrence: Option<Timestamp>,
    items: Vec<Item>,
) -> (r: Option<Transaction>)
    ensures
        r is Some <==> (name@.len() > 0 && clean_bytes(name@) && items@.len() > 0 && (forall|
            k: int,
        |
            0 <= k < items@.len() ==> item_wf(#[trigger] items@[k]@)) && -(NET_LIMIT as int)
            <= sum_amounts(items@.map_values(|x: Item| x@)) && sum_amounts(
            items@.map_values(|x: Item| x@),
        ) <= NET_LIMIT as int),
        match r {
            Some(t) => tx_wf(t@) && t@.name == name@ && t@.category == category && t@.currency
                == currency && t@.seconds == date.seconds as int && t@.nanos == date.nanos as int
                && t@.recurrence == recurrence && t@.items == items@.map_values(|x: Item| x@),
            None => true,
        },
{
    if name.len() == 0 {
        return None;
    }
    if !bytes_clean(&name) {
        return None;
    }
    if items.len() == 0 {
        return None;
    }
    let mut k: usize = 0;
    while k < items.len()
        invariant
            k <= items@.len(),
            forall|j: int| 0 <= j < k ==> item_wf(#[trigger] items@[j]@),
        decreases items@.len() - k,
    {
        if !check_item(&items[k]) {
            proof {
                assert(!item_wf(items@[k as int]@));
            }
            return None;
        }
        k += 1;
    }
    let net = sum_items(&items);
    if net < -(NET_LIMIT as i128) || net > NET_LIMIT as i128 {
        return None;
    }
    let t = Transaction { name, category, currency, original_date: date, recurrence, items };
    proof {
        assert(tx_wf(t@));
    }
    Some(t)
}

} // verus!
