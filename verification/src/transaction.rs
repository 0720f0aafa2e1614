//! Transaction data model: categories, currencies, timestamps, line items.
//!
//! Amounts are fixed-point currency values counted in cents, so that the
//! ledger arithmetic is exact. The sign convention is: negative = money
//! spent (cost), positive = money received (profit).

use vstd::prelude::*;

verus! {

/// Largest magnitude, in cents, that a single item amount may carry.
pub const AMOUNT_LIMIT: i64 = 10_000_000_000_000;

/// Largest magnitude, in cents, that a transaction's net amount may carry.
pub const NET_LIMIT: i64 = 1_000_000_000_000_000;

/// Closed category taxonomy. The first four are cost categories, the last
/// four are profit categories.
#[derive(Clone, Copy, PartialEq, Eq, Structural, Debug)]
pub enum Category {
    Gas,
    FoodAndDrink,
    Rent,
    Utility,
    Cash,
    Equity,
    TaxableBenefit,
    Reimbursement,
}

/// Closed currency enumeration, with a sentinel for an unrecognized value.
#[derive(Clone, Copy, PartialEq, Eq, Structural, Debug)]
pub enum Currency {
    InvalidCurrency,
    Usd,
    Cad,
}

/// Seconds and nanoseconds since the epoch; recorded at creation, immutable.
#[derive(Clone, Copy, PartialEq, Eq, Structural, Debug)]
pub struct Timestamp {
    pub seconds: i64,
    pub nanos: i32,
}

/// One line within a transaction: an optional display name and a signed
/// amount in cents.
pub struct Item {
    pub name: Option<Vec<u8>>,
    pub amount: i64,
}

/// One recorded financial event. The recurrence is reserved: it is
/// stored and replayed but nothing reads it yet.
pub struct Transaction {
    pub name: Vec<u8>,
    pub category: Category,
    pub currency: Currency,
    pub original_date: Timestamp,
    pub items: Vec<Item>,
    pub recurrence: Option<Timestamp>,
}

/// Mathematical model of an `Item`.
pub struct ItemModel {
    pub name: Option<Seq<u8>>,
    pub amount: int,
}

/// Mathematical model of a `Transaction`.
pub struct TxModel {
    pub name: Seq<u8>,
    pub category: Category,
    pub currency: Currency,
    pub seconds: int,
    pub nanos: int,
    pub items: Seq<ItemModel>,
    pub recurrence: Option<Timestamp>,
}

impl View for Item {
    type V = ItemModel;

    open spec fn view(&self) -> ItemModel {
        ItemModel {
            name: match self.name {
                Option::Some(n) => Option::Some(n@),
                Option::None => Option::None,
            },
            amount: self.amount as int,
        }
    }
}

impl View for Transaction {
    type V = TxModel;

    open spec fn view(&self) -> TxModel {
        TxModel {
            name: self.name@,
            category: self.category,
            currency: self.currency,
            seconds: self.original_date.seconds as int,
            nanos: self.original_date.nanos as int,
            items: self.items@.map_values(|it: Item| it@),
            recurrence: self.recurrence,
        }
    }
}

/// Bytes that may stand in a stored name: everything but the ASCII control
/// range, whose bytes (newline among them) would break the line-per-record
/// store format.
pub open spec fn clean_bytes(s: Seq<u8>) -> bool {
    forall|i: int| 0 <= i < s.len() ==> s[i] >= 0x20
}

/// Well-formedness of one item: a bounded amount and a clean name.
pub open spec fn item_wf(it: ItemModel) -> bool {
    &&& -(AMOUNT_LIMIT as int) <= it.amount <= AMOUNT_LIMIT as int
    &&& match it.name {
        Option::Some(n) => clean_bytes(n),
        Option::None => true,
    }
}

/// Sum of the amounts of a sequence of items.
pub open spec fn sum_amounts(items: Seq<ItemModel>) -> int
    decreases items.len(),
{
    if items.len() == 0 {
        0
    } else {
        sum_amounts(items.drop_last()) + items.last().amount
    }
}

/// A transaction's net amount: the sum of its items' amounts. Its sign
/// decides whether the transaction renders as a cost or a profit.
pub open spec fn net_of(t: TxModel) -> int {
    sum_amounts(t.items)
}

/// Well-formedness of a transaction: a non-empty clean name, at least one
/// well-formed item, and a bounded net amount.
pub open spec fn tx_wf(t: TxModel) -> bool {
    &&& t.name.len() > 0
    &&& clean_bytes(t.name)
    &&& t.items.len() > 0
    &&& forall|i: int| 0 <= i < t.items.len() ==> item_wf(#[trigger] t.items[i])
    &&& -(NET_LIMIT as int) <= net_of(t) <= NET_LIMIT as int
    &&& i64::MIN <= t.seconds <= i64::MAX
    &&& i32::MIN <= t.nanos <= i32::MAX
}

/// Sums the amounts of a list of well-formed items exactly, in cents.
pub fn sum_items(items: &Vec<Item>) -> (r: i128)
    requires
        forall|k: int| 0 <= k < items@.len() ==> item_wf(#[trigger] items@[k]@),
    ensures
        r as int == sum_amounts(items@.map_values(|x: Item| x@)),
        -(items@.len() as int) * (AMOUNT_LIMIT as int) <= r as int <= (items@.len() as int) * (
        AMOUNT_LIMIT as int),
{
    let ghost m = items@.map_values(|x: Item| x@);
    let mut total: i128 = 0;
    let mut k: usize = 0;
    while k < items.len()
        invariant
            k <= items@.len(),
            m == items@.map_values(|x: Item| x@),
            m.len() == items@.len(),
            forall|q: int| 0 <= q < items@.len() ==> item_wf(#[trigger] items@[q]@),
            total as int == sum_amounts(m.subrange(0, k as int)),
            -(k as int) * (AMOUNT_LIMIT as int) <= total as int <= (k as int) * (AMOUNT_LIMIT
                as int),
        decreases items@.len() - k,
    {
        let a = items[k].amount;
        proof {
            assert(m[k as int] == items@[k as int]@);
            assert(item_wf(m[k as int]));
            assert((k as int) * (AMOUNT_LIMIT as int) + AMOUNT_LIMIT as int == ((k as int) + 1) * (
            AMOUNT_LIMIT as int)) by (nonlinear_arith);
            assert(((k as int) + 1) * (AMOUNT_LIMIT as int) <= 0x10000000000000000 * (AMOUNT_LIMIT
                as int)) by (nonlinear_arith)
                requires
                    (k as int) + 1 <= 0x10000000000000000,
            ;
        }
        total = total + a as i128;
        proof {
            let sub1 = m.subrange(0, (k + 1) as int);
            assert(sub1.drop_last() =~= m.subrange(0, k as int));
            assert(sub1.last() == m[k as int]);
        }
        k += 1;
    }
    proof {
        assert(m.subrange(0, m.len() as int) =~= m);
    }
    total
}

} // verus!
