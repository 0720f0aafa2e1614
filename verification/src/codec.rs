//! The store's record encoding: one JSON object per line, in a fixed,
//! canonical field order. The encoder and the decoder are both verified
//! against spec-level definitions, and a proved lemma shows that decoding
//! an encoded record gives the record back (round trip).

use vstd::prelude::*;

use crate::transaction::{
    clean_bytes, item_wf, sum_amounts, tx_wf, Category, Currency, Item, ItemModel, Timestamp,
    Transaction, TxModel, AMOUNT_LIMIT, NET_LIMIT,
};

verus! {

// ---------------------------------------------------------------------------
// Spec-level building blocks
// ---------------------------------------------------------------------------

pub open spec fn is_digit(b: u8) -> bool {
    0x30 <= b <= 0x39
}

/// Decimal digits of `n`, most significant first, no leading zeros.
pub open spec fn dig(n: nat) -> Seq<u8>
    decreases n,
{
    if n < 10 {
        seq![(0x30 + n) as u8]
    } else {
        dig(n / 10).push((0x30 + n % 10) as u8)
    }
}

/// Canonical decimal encoding of a (possibly negative) integer.
pub open spec fn enc_int(v: int) -> Seq<u8> {
    if v < 0 {
        seq![0x2du8] + dig((-v) as nat)
    } else {
        dig(v as nat)
    }
}

/// JSON escaping of one byte inside a string: `"` and `\` get a backslash.
pub open spec fn esc_byte(b: u8) -> Seq<u8> {
    if b == 0x22 || b == 0x5c {
        seq![0x5cu8, b]
    } else {
        seq![b]
    }
}

/// JSON escaping of a whole byte string.
pub open spec fn esc(s: Seq<u8>) -> Seq<u8>
    decreases s.len(),
{
    if s.len() == 0 {
        Seq::empty()
    } else {
        esc_byte(s[0]) + esc(s.subrange(1, s.len() as int))
    }
}

/// A quoted, escaped JSON string.
pub open spec fn enc_str(s: Seq<u8>) -> Seq<u8> {
    seq![0x22u8] + esc(s) + seq![0x22u8]
}

// The literal punctuation of the record grammar.

/// `{"name":`
pub open spec fn lit_obj_name() -> Seq<u8> {
    seq![0x7bu8, 0x22, 0x6e, 0x61, 0x6d, 0x65, 0x22, 0x3a]
}

/// `,"category":`
pub open spec fn lit_category() -> Seq<u8> {
    seq![0x2cu8, 0x22, 0x63, 0x61, 0x74, 0x65, 0x67, 0x6f, 0x72, 0x79, 0x22, 0x3a]
}

/// `,"currency":`
pub open spec fn lit_currency() -> Seq<u8> {
    seq![0x2cu8, 0x22, 0x63, 0x75, 0x72, 0x72, 0x65, 0x6e, 0x63, 0x79, 0x22, 0x3a]
}

/// `,"seconds":`
pub open spec fn lit_seconds() -> Seq<u8> {
    seq![0x2cu8, 0x22, 0x73, 0x65, 0x63, 0x6f, 0x6e, 0x64, 0x73, 0x22, 0x3a]
}

/// `,"nanos":`
pub open spec fn lit_nanos() -> Seq<u8> {
    seq![0x2cu8, 0x22, 0x6e, 0x61, 0x6e, 0x6f, 0x73, 0x22, 0x3a]
}

/// `,"recurrence":`
pub open spec fn lit_recurrence() -> Seq<u8> {
    seq![0x2cu8, 0x22, 0x72, 0x65, 0x63, 0x75, 0x72, 0x72, 0x65, 0x6e, 0x63, 0x65, 0x22, 0x3a]
}

/// `,"items":[`
pub open spec fn lit_items() -> Seq<u8> {
    seq![0x2cu8, 0x22, 0x69, 0x74, 0x65, 0x6d, 0x73, 0x22, 0x3a, 0x5b]
}

/// `,"amount":`
pub open spec fn lit_amount() -> Seq<u8> {
    seq![0x2cu8, 0x22, 0x61, 0x6d, 0x6f, 0x75, 0x6e, 0x74, 0x22, 0x3a]
}

/// `null`
pub open spec fn lit_null() -> Seq<u8> {
    seq![0x6eu8, 0x75, 0x6c, 0x6c]
}

/// `]}`
pub open spec fn lit_tx_close() -> Seq<u8> {
    seq![0x5du8, 0x7d]
}

/// Numeric code of a category in the stored form.
pub open spec fn category_code(c: Category) -> nat {
    match c {
        Category::Gas => 1,
        Category::FoodAndDrink => 2,
        Category::Rent => 3,
        Category::Utility => 4,
        Category::Cash => 5,
        Category::Equity => 6,
        Category::TaxableBenefit => 7,
        Category::Reimbursement => 8,
    }
}

pub open spec fn code_to_category(n: nat) -> Option<Category> {
    if n == 1 {
        Some(Category::Gas)
    } else if n == 2 {
        Some(Category::FoodAndDrink)
    } else if n == 3 {
        Some(Category::Rent)
    } else if n == 4 {
        Some(Category::Utility)
    } else if n == 5 {
        Some(Category::Cash)
    } else if n == 6 {
        Some(Category::Equity)
    } else if n == 7 {
        Some(Category::TaxableBenefit)
    } else if n == 8 {
        Some(Category::Reimbursement)
    } else {
        None
    }
}

/// Numeric code of a currency in the stored form.
pub open spec fn currency_code(c: Currency) -> nat {
    match c {
        Currency::InvalidCurrency => 0,
        Currency::Usd => 1,
        Currency::Cad => 2,
    }
}

pub open spec fn code_to_currency(n: nat) -> Option<Currency> {
    if n == 0 {
        Some(Currency::InvalidCurrency)
    } else if n == 1 {
        Some(Currency::Usd)
    } else if n == 2 {
        Some(Currency::Cad)
    } else {
        None
    }
}

/// An item's name field: `null` when absent, a JSON string otherwise.
pub open spec fn enc_opt_name(o: Option<Seq<u8>>) -> Seq<u8> {
    match o {
        Some(s) => enc_str(s),
        None => lit_null(),
    }
}

/// The reserved recurrence field: `null`, or `[seconds,nanos]`.
pub open spec fn enc_rec(o: Option<Timestamp>) -> Seq<u8> {
    match o {
        Some(ts) => seq![0x5bu8] + enc_int(ts.seconds as int) + seq![0x2cu8] + enc_int(
            ts.nanos as int,
        ) + seq![0x5du8],
        None => lit_null(),
    }
}

/// One encoded item object.
pub open spec fn enc_item(it: ItemModel) -> Seq<u8> {
    lit_obj_name() + enc_opt_name(it.name) + lit_amount() + enc_int(it.amount) + seq![0x7du8]
}

/// A comma-separated list of encoded items.
pub open spec fn enc_items(items: Seq<ItemModel>) -> Seq<u8>
    decreases items.len(),
{
    if items.len() == 0 {
        Seq::empty()
    } else if items.len() == 1 {
        enc_item(items[0])
    } else {
        enc_item(items[0]) + seq![0x2cu8] + enc_items(items.subrange(1, items.len() as int))
    }
}

/// The full encoded record line of a transaction.
#[verifier::opaque]
pub open spec fn enc_tx(t: TxModel) -> Seq<u8> {
    lit_obj_name() + enc_str(t.name) + lit_category() + dig(category_code(t.category))
        + lit_currency() + dig(currency_code(t.currency)) + lit_seconds() + enc_int(t.seconds)
        + lit_nanos() + enc_int(t.nanos) + lit_recurrence() + enc_rec(t.recurrence) + lit_items()
        + enc_items(t.items) + lit_tx_close()
}

// ---------------------------------------------------------------------------
// Spec-level parser
// ---------------------------------------------------------------------------

/// `t` occurs in `s` at position `i`.
pub open spec fn match_at(s: Seq<u8>, i: int, t: Seq<u8>) -> bool {
    &&& 0 <= i
    &&& i + t.len() <= s.len()
    &&& s.subrange(i, i + t.len() as int) == t
}

/// Consumes the exact literal `t`, or fails.
pub open spec fn parse_lit(s: Seq<u8>, i: int, t: Seq<u8>) -> Option<int> {
    if match_at(s, i, t) {
        Some(i + t.len() as int)
    } else {
        None
    }
}

/// Consumes the longest digit run from `i`, folding it into `acc`;
/// yields the value and the first position past the run.
pub open spec fn parse_digits(s: Seq<u8>, i: int, acc: nat) -> (nat, int)
    decreases s.len() - i,
{
    if 0 <= i < s.len() && is_digit(s[i]) {
        parse_digits(s, i + 1, acc * 10 + (s[i] - 0x30) as nat)
    } else {
        (acc, i)
    }
}

/// An unsigned canonical decimal number: at least one digit, no leading
/// zeros, at most nineteen digits.
pub open spec fn parse_u64(s: Seq<u8>, i: int) -> Option<(nat, int)> {
    if 0 <= i < s.len() && is_digit(s[i]) {
        if s[i] == 0x30 && i + 1 < s.len() && is_digit(s[i + 1]) {
            None
        } else {
            let (n, j) = parse_digits(s, i, 0);
            if j - i > 19 {
                None
            } else {
                Some((n, j))
            }
        }
    } else {
        None
    }
}

/// A signed canonical decimal number; `-0` is not canonical.
pub open spec fn parse_int(s: Seq<u8>, i: int) -> Option<(int, int)> {
    if 0 <= i < s.len() && s[i] == 0x2d {
        match parse_u64(s, i + 1) {
            Some((n, j)) => if n == 0 {
                None
            } else {
                Some((-(n as int), j))
            },
            None => None,
        }
    } else {
        match parse_u64(s, i) {
            Some((n, j)) => Some((n as int, j)),
            None => None,
        }
    }
}

/// The body of a JSON string after the opening quote: plain bytes and the
/// two escapes, up to the closing quote.
pub open spec fn parse_str_body(s: Seq<u8>, i: int, acc: Seq<u8>) -> Option<(Seq<u8>, int)>
    decreases s.len() - i,
{
    if i < 0 || i >= s.len() {
        None
    } else if s[i] == 0x22 {
        Some((acc, i + 1))
    } else if s[i] == 0x5c {
        if i + 1 < s.len() && (s[i + 1] == 0x22 || s[i + 1] == 0x5c) {
            parse_str_body(s, i + 2, acc.push(s[i + 1]))
        } else {
            None
        }
    } else if s[i] >= 0x20 {
        parse_str_body(s, i + 1, acc.push(s[i]))
    } else {
        None
    }
}

/// A quoted JSON string.
pub open spec fn parse_str(s: Seq<u8>, i: int) -> Option<(Seq<u8>, int)> {
    if 0 <= i < s.len() && s[i] == 0x22 {
        parse_str_body(s, i + 1, Seq::empty())
    } else {
        None
    }
}

/// An item's name field: `null` or a string.
pub open spec fn parse_opt_name(s: Seq<u8>, i: int) -> Option<(Option<Seq<u8>>, int)> {
    match parse_lit(s, i, lit_null()) {
        Some(j) => Some((None, j)),
        None => match parse_str(s, i) {
            Some((t, j)) => Some((Some(t), j)),
            None => None,
        },
    }
}

/// The reserved recurrence field: `null`, or a `[seconds,nanos]` pair in
/// range.
pub open spec fn parse_rec(s: Seq<u8>, i: int) -> Option<(Option<Timestamp>, int)> {
    match parse_lit(s, i, lit_null()) {
        Some(j) => Some((None, j)),
        None => match parse_lit(s, i, seq![0x5bu8]) {
            Some(j1) => match parse_int(s, j1) {
                Some((sec, j2)) => if !(i64::MIN <= sec <= i64::MAX) {
                    None
                } else {
                    match parse_lit(s, j2, seq![0x2cu8]) {
                        Some(j3) => match parse_int(s, j3) {
                            Some((nn, j4)) => if !(i32::MIN <= nn <= i32::MAX) {
                                None
                            } else {
                                match parse_lit(s, j4, seq![0x5du8]) {
                                    Some(j5) => Some((
                                        Some(Timestamp { seconds: sec as i64, nanos: nn as i32 }),
                                        j5,
                                    )),
                                    None => None,
                                }
                            },
                            None => None,
                        },
                        None => None,
                    }
                },
                None => None,
            },
            None => None,
        },
    }
}

/// One item object, with its amount held to the per-item bound.
pub open spec fn parse_item(s: Seq<u8>, i: int) -> Option<(ItemModel, int)> {
    match parse_lit(s, i, lit_obj_name()) {
        Some(j1) => match parse_opt_name(s, j1) {
            Some((nm, j2)) => match parse_lit(s, j2, lit_amount()) {
                Some(j3) => match parse_int(s, j3) {
                    Some((v, j4)) => if -(AMOUNT_LIMIT as int) <= v <= AMOUNT_LIMIT as int {
                        match parse_lit(s, j4, seq![0x7du8]) {
                            Some(j5) => Some((ItemModel { name: nm, amount: v }, j5)),
                            None => None,
                        }
                    } else {
                        None
                    },
                    None => None,
                },
                None => None,
            },
            None => None,
        },
        None => None,
    }
}

/// A non-empty, comma-separated list of item objects.
pub open spec fn parse_items(s: Seq<u8>, i: int) -> Option<(Seq<ItemModel>, int)>
    decreases s.len() - i,
{
    match parse_item(s, i) {
        Some((it, j)) => if j < s.len() && s[j] == 0x2c {
            if i <= j && j + 1 <= s.len() {
                match parse_items(s, j + 1) {
                    Some((rest, k)) => Some((seq![it] + rest, k)),
                    None => None,
                }
            } else {
                None
            }
        } else {
            Some((seq![it], j))
        },
        None => None,
    }
}

/// A whole transaction record starting at `i`.
#[verifier::opaque]
pub open spec fn parse_tx_at(s: Seq<u8>, i: int) -> Option<(TxModel, int)> {
    match parse_lit(s, i, lit_obj_name()) {
        Some(j1) => match parse_str(s, j1) {
            Some((name, j2)) => if name.len() == 0 {
                None
            } else {
                match parse_lit(s, j2, lit_category()) {
                    Some(j3) => match parse_u64(s, j3) {
                        Some((cn, j4)) => match code_to_category(cn) {
                            Some(category) => match parse_lit(s, j4, lit_currency()) {
                                Some(j5) => match parse_u64(s, j5) {
                                    Some((un, j6)) => match code_to_currency(un) {
                                        Some(currency) => parse_tx_tail(s, j6, name, category, currency),
                                        None => None,
                                    },
                                    None => None,
                                },
                                None => None,
                            },
                            None => None,
                        },
                        None => None,
                    },
                    None => None,
                }
            },
            None => None,
        },
        None => None,
    }
}

/// The date and items part of a transaction record.
#[verifier::opaque]
pub open spec fn parse_tx_tail(
    s: Seq<u8>,
    i: int,
    name: Seq<u8>,
    category: Category,
    currency: Currency,
) -> Option<(TxModel, int)> {
    match parse_lit(s, i, lit_seconds()) {
        Some(j1) => match parse_int(s, j1) {
            Some((seconds, j2)) => if !(i64::MIN <= seconds <= i64::MAX) {
                None
            } else {
                match parse_lit(s, j2, lit_nanos()) {
                    Some(j3) => match parse_int(s, j3) {
                        Some((nanos, j4)) => if !(i32::MIN <= nanos <= i32::MAX) {
                            None
                        } else {
                            match parse_lit(s, j4, lit_recurrence()) {
                                Some(j4r) => match parse_rec(s, j4r) {
                                    Some((recurrence, j4s)) => match parse_lit(s, j4s, lit_items()) {
                                        Some(j5) => match parse_items(s, j5) {
                                            Some((items, j6)) => if !(-(NET_LIMIT as int)
                                                <= sum_amounts(items) <= NET_LIMIT as int) {
                                                None
                                            } else {
                                                match parse_lit(s, j6, lit_tx_close()) {
                                                    Some(j7) => Some((
                                                        TxModel {
                                                            name,
                                                            category,
                                                            currency,
                                                            seconds,
                                                            nanos,
                                                            items,
                                                            recurrence,
                                                        },
                                                        j7,
                                                    )),
                                                    None => None,
                                                }
                                            },
                                            None => None,
                                        },
                                        None => None,
                                    },
                                    None => None,
                                },
                                None => None,
                            }
                        },
                        None => None,
                    },
                    None => None,
                }
            },
            None => None,
        },
        None => None,
    }
}

/// Decoding of one store line: the record must span the whole line.
#[verifier::opaque]
pub open spec fn dec_tx(line: Seq<u8>) -> Option<TxModel> {
    match parse_tx_at(line, 0) {
        Some((t, j)) => if j == line.len() {
            Some(t)
        } else {
            None
        },
        None => None,
    }
}

// ---------------------------------------------------------------------------
// Round-trip lemmas: parsing what was encoded gives the encoded value back
// ---------------------------------------------------------------------------

pub open spec fn pow10(k: nat) -> nat
    decreases k,
{
    if k == 0 {
        1
    } else {
        10 * pow10((k - 1) as nat)
    }
}

proof fn lemma_match_at_concat(s: Seq<u8>, i: int, a: Seq<u8>, b: Seq<u8>)
    requires
        match_at(s, i, a + b),
    ensures
        match_at(s, i, a),
        match_at(s, i + a.len(), b),
{
    let ab = a + b;
    assert forall|k: int| 0 <= k < a.len() implies s[i + k] == a[k] by {
        assert(s.subrange(i, i + ab.len() as int)[k] == s[i + k]);
    }
    assert(s.subrange(i, i + a.len() as int) =~= a);
    assert forall|k: int| 0 <= k < b.len() implies s[i + a.len() + k] == b[k] by {
        assert(s.subrange(i, i + ab.len() as int)[a.len() + k] == s[i + a.len() + k]);
    }
    assert(s.subrange(i + a.len(), i + a.len() + b.len() as int) =~= b);
}

proof fn lemma_match_at_push(s: Seq<u8>, i: int, a: Seq<u8>, x: u8)
    requires
        match_at(s, i, a.push(x)),
    ensures
        match_at(s, i, a),
        s[i + a.len()] == x,
{
    assert(a.push(x) =~= a + seq![x]);
    lemma_match_at_concat(s, i, a, seq![x]);
    assert(s.subrange(i + a.len(), i + a.len() + 1)[0] == s[i + a.len()]);
}

proof fn lemma_dig_props(n: nat)
    ensures
        dig(n).len() >= 1,
        forall|k: int| 0 <= k < dig(n).len() ==> is_digit(#[trigger] dig(n)[k]),
        n >= 1 ==> dig(n)[0] != 0x30,
        n < pow10(dig(n).len() as nat),
    decreases n,
{
    if n < 10 {
        assert(pow10(0) == 1);
        assert(pow10(1) == 10);
    } else {
        lemma_dig_props(n / 10);
        assert(dig(n)[0] == dig(n / 10)[0]);
        assert(n < pow10(dig(n).len() as nat)) by {
            let lq = dig(n / 10).len() as nat;
            assert(n / 10 < pow10(lq));
            assert(n / 10 + 1 <= pow10(lq));
            vstd::arithmetic::div_mod::lemma_fundamental_div_mod(n as int, 10);
            assert(n == 10 * (n / 10) + n % 10);
            assert(10 * (n / 10) + 10 <= 10 * pow10(lq));
            assert(pow10((lq + 1) as nat) == 10 * pow10(lq));
            assert(dig(n).len() == lq + 1);
        }
    }
}

proof fn lemma_dig_len_le(n: nat, k: nat)
    requires
        n < pow10(k),
        k >= 1,
    ensures
        dig(n).len() <= k,
    decreases n,
{
    if n < 10 {
    } else {
        vstd::arithmetic::div_mod::lemma_fundamental_div_mod(n as int, 10);
        assert(pow10(k) == 10 * pow10((k - 1) as nat));
        assert(10 * (n / 10) <= n);
        assert(n / 10 < pow10((k - 1) as nat));
        assert(k >= 2) by {
            if k == 1 {
                assert(pow10(0) == 1);
        assert(pow10(1) == 10);
            }
        }
        lemma_dig_len_le(n / 10, (k - 1) as nat);
    }
}

proof fn lemma_parse_digits_ge(s: Seq<u8>, i: int, acc: nat)
    ensures
        parse_digits(s, i, acc).1 >= i,
    decreases s.len() - i,
{
    if 0 <= i < s.len() && is_digit(s[i]) {
        lemma_parse_digits_ge(s, i + 1, acc * 10 + (s[i] - 0x30) as nat);
    }
}

proof fn lemma_parse_digits_dig(s: Seq<u8>, i: int, acc: nat, n: nat)
    requires
        match_at(s, i, dig(n)),
    ensures
        parse_digits(s, i, acc) == parse_digits(
            s,
            i + dig(n).len(),
            acc * pow10(dig(n).len() as nat) + n,
        ),
    decreases n,
{
    if n < 10 {
        assert(s.subrange(i, i + 1)[0] == s[i]);
        assert(s[i] == (0x30 + n) as u8);
        assert(is_digit(s[i]));
        assert((s[i] - 0x30) as nat == n);
        assert(pow10(0) == 1);
        assert(pow10(1) == 10);
        assert(parse_digits(s, i, acc) == parse_digits(s, i + 1, acc * 10 + n));
    } else {
        let q = n / 10;
        let r = n % 10;
        vstd::arithmetic::div_mod::lemma_fundamental_div_mod(n as int, 10);
        lemma_match_at_push(s, i, dig(q), (0x30 + r) as u8);
        lemma_parse_digits_dig(s, i, acc, q);
        let lq = dig(q).len();
        assert(s[i + lq] == (0x30 + r) as u8);
        assert(is_digit(s[i + lq]));
        assert(i + lq < s.len());
        assert((s[i + lq] - 0x30) as nat == r);
        assert(parse_digits(s, i + lq, acc * pow10(lq as nat) + q) == parse_digits(
            s,
            i + lq + 1,
            (acc * pow10(lq as nat) + q) * 10 + r,
        ));
        assert(pow10((lq + 1) as nat) == 10 * pow10(lq as nat));
        assert((acc * pow10(lq as nat) + q) * 10 + r == acc * pow10((lq + 1) as nat) + n)
            by (nonlinear_arith)
            requires
                n == 10 * q + r,
                pow10((lq + 1) as nat) == 10 * pow10(lq as nat),
        ;
        assert(dig(n).len() == lq + 1);
    }
}

proof fn lemma_pow10_19()
    ensures
        pow10(19) == 10000000000000000000,
{
    reveal_with_fuel(pow10, 20);
}

proof fn lemma_parse_u64_dig(s: Seq<u8>, i: int, n: nat)
    requires
        match_at(s, i, dig(n)),
        n <= 0x8000000000000000,
        i + dig(n).len() == s.len() || !is_digit(s[i + dig(n).len()]),
    ensures
        parse_u64(s, i) == Some((n, i + dig(n).len() as int)),
{
    lemma_dig_props(n);
    assert(s.subrange(i, i + dig(n).len() as int)[0] == s[i]);
    assert(s[i] == dig(n)[0]);
    assert(is_digit(s[i]));
    lemma_parse_digits_dig(s, i, 0, n);
    let l = dig(n).len();
    assert(parse_digits(s, i + l, 0 * pow10(l as nat) + n) == (n, i + l));
    assert(parse_digits(s, i, 0) == (n, i + l));
    assert(l <= 19) by {
        lemma_pow10_19();
        lemma_dig_len_le(n, 19);
    }
    if n == 0 {
        assert(l == 1);
        assert(!(s[i] == 0x30 && i + 1 < s.len() && is_digit(s[i + 1])));
    } else {
        assert(s[i] != 0x30);
    }
}

proof fn lemma_parse_int_enc(s: Seq<u8>, i: int, v: int)
    requires
        match_at(s, i, enc_int(v)),
        -0x8000000000000000 <= v <= 0x7fffffffffffffff,
        i + enc_int(v).len() == s.len() || !is_digit(s[i + enc_int(v).len()]),
    ensures
        parse_int(s, i) == Some((v, i + enc_int(v).len() as int)),
{
    if v < 0 {
        let m = (-v) as nat;
        lemma_match_at_concat(s, i, seq![0x2du8], dig(m));
        assert(s.subrange(i, i + 1)[0] == s[i]);
        assert(s[i] == 0x2d);
        lemma_parse_u64_dig(s, i + 1, m);
    } else {
        lemma_dig_props(v as nat);
        assert(s.subrange(i, i + dig(v as nat).len() as int)[0] == s[i]);
        assert(s[i] == dig(v as nat)[0]);
        assert(is_digit(s[i]));
        assert(s[i] != 0x2d);
        lemma_parse_u64_dig(s, i, v as nat);
    }
}

proof fn lemma_parse_str_body_esc(s: Seq<u8>, i: int, acc: Seq<u8>, t: Seq<u8>)
    requires
        match_at(s, i, esc(t) + seq![0x22u8]),
        clean_bytes(t),
    ensures
        parse_str_body(s, i, acc) == Some((acc + t, i + esc(t).len() + 1)),
    decreases t.len(),
{
    if t.len() == 0 {
        assert(esc(t) + seq![0x22u8] =~= seq![0x22u8]);
        assert(s.subrange(i, i + 1)[0] == s[i]);
        assert(s[i] == 0x22);
        assert(acc + t =~= acc);
    } else {
        let b = t[0];
        let rest = t.subrange(1, t.len() as int);
        assert(clean_bytes(rest));
        assert(b >= 0x20);
        assert(esc(t) == esc_byte(b) + esc(rest));
        assert((esc_byte(b) + esc(rest)) + seq![0x22u8] =~= esc_byte(b) + (esc(rest)
            + seq![0x22u8]));
        lemma_match_at_concat(s, i, esc_byte(b), esc(rest) + seq![0x22u8]);
        if b == 0x22 || b == 0x5c {
            assert(s.subrange(i, i + 2)[0] == s[i]);
            assert(s.subrange(i, i + 2)[1] == s[i + 1]);
            assert(s[i] == 0x5c);
            assert(s[i + 1] == b);
            assert(i + 2 <= s.len());
            lemma_parse_str_body_esc(s, i + 2, acc.push(b), rest);
            assert(acc.push(b) + rest =~= acc + t);
        } else {
            assert(s.subrange(i, i + 1)[0] == s[i]);
            assert(s[i] == b);
            lemma_parse_str_body_esc(s, i + 1, acc.push(b), rest);
            assert(acc.push(b) + rest =~= acc + t);
        }
    }
}

proof fn lemma_parse_str_enc(s: Seq<u8>, i: int, t: Seq<u8>)
    requires
        match_at(s, i, enc_str(t)),
        clean_bytes(t),
    ensures
        parse_str(s, i) == Some((t, i + enc_str(t).len() as int)),
{
    assert(seq![0x22u8] + esc(t) + seq![0x22u8] =~= seq![0x22u8] + (esc(t) + seq![0x22u8]));
    lemma_match_at_concat(s, i, seq![0x22u8], esc(t) + seq![0x22u8]);
    assert(s.subrange(i, i + 1)[0] == s[i]);
    assert(s[i] == 0x22);
    lemma_parse_str_body_esc(s, i + 1, Seq::empty(), t);
    assert(Seq::<u8>::empty() + t =~= t);
}

proof fn lemma_parse_item_enc(s: Seq<u8>, i: int, it: ItemModel)
    requires
        match_at(s, i, enc_item(it)),
        item_wf(it),
    ensures
        parse_item(s, i) == Some((it, i + enc_item(it).len() as int)),
{
    let a = lit_obj_name();
    let b = enc_opt_name(it.name);
    let c = lit_amount();
    let d = enc_int(it.amount);
    let e = seq![0x7du8];
    lemma_match_at_concat(s, i, a + b + c + d, e);
    lemma_match_at_concat(s, i, a + b + c, d);
    lemma_match_at_concat(s, i, a + b, c);
    lemma_match_at_concat(s, i, a, b);
    let p1 = i + a.len();
    let p2 = p1 + b.len();
    let p3 = p2 + c.len();
    let p4 = p3 + d.len();
    assert(parse_lit(s, i, lit_obj_name()) == Some(p1));
    match it.name {
        Some(nm) => {
            assert(s.subrange(p1, p1 + b.len() as int)[0] == s[p1]);
            assert((seq![0x22u8] + esc(nm))[0] == 0x22);
            assert(b[0] == 0x22);
            assert(s[p1] == 0x22);
            if match_at(s, p1, lit_null()) {
                assert(s.subrange(p1, p1 + 4)[0] == s[p1]);
                assert(s[p1] == 0x6e);
            }
            assert(parse_lit(s, p1, lit_null()) is None);
            lemma_parse_str_enc(s, p1, nm);
            assert(parse_opt_name(s, p1) == Some((Some(nm), p2)));
        },
        None => {
            assert(b == lit_null());
            assert(parse_opt_name(s, p1) == Some((None::<Seq<u8>>, p2)));
        },
    }
    assert(parse_lit(s, p2, lit_amount()) == Some(p3));
    assert(s.subrange(p4, p4 + 1)[0] == s[p4]);
    assert(s[p4] == 0x7d);
    assert(!is_digit(s[p4]));
    lemma_parse_int_enc(s, p3, it.amount);
    assert(parse_lit(s, p4, seq![0x7du8]) == Some(p4 + 1));
    assert(ItemModel { name: it.name, amount: it.amount } == it);
    assert(parse_item(s, i) == Some((it, i + enc_item(it).len() as int)));
}

proof fn lemma_parse_items_enc(s: Seq<u8>, i: int, items: Seq<ItemModel>)
    requires
        match_at(s, i, enc_items(items)),
        items.len() >= 1,
        forall|k: int| 0 <= k < items.len() ==> item_wf(#[trigger] items[k]),
        i + enc_items(items).len() < s.len(),
        s[i + enc_items(items).len()] != 0x2c,
    ensures
        parse_items(s, i) == Some((items, i + enc_items(items).len() as int)),
    decreases items.len(),
{
    if items.len() == 1 {
        assert(enc_items(items) == enc_item(items[0]));
        lemma_parse_item_enc(s, i, items[0]);
        let j = i + enc_item(items[0]).len();
        assert(s[j] != 0x2c);
        assert(seq![items[0]] =~= items);
        assert(parse_items(s, i) == Some((items, j)));
    } else {
        let first = items[0];
        let rest = items.subrange(1, items.len() as int);
        assert(enc_items(items) == enc_item(first) + seq![0x2cu8] + enc_items(rest));
        lemma_match_at_concat(s, i, enc_item(first) + seq![0x2cu8], enc_items(rest));
        lemma_match_at_concat(s, i, enc_item(first), seq![0x2cu8]);
        lemma_parse_item_enc(s, i, first);
        let j = i + enc_item(first).len();
        assert(s.subrange(j, j + 1)[0] == s[j]);
        assert(s[j] == 0x2c);
        assert(j < s.len());
        assert(forall|k: int| 0 <= k < rest.len() ==> item_wf(#[trigger] rest[k]));
        lemma_parse_items_enc(s, j + 1, rest);
        assert(seq![first] + rest =~= items);
        assert(parse_items(s, i) == Some((items, i + enc_items(items).len() as int)));
    }
}

proof fn lemma_parse_rec_enc(s: Seq<u8>, i: int, o: Option<Timestamp>)
    requires
        match_at(s, i, enc_rec(o)),
    ensures
        parse_rec(s, i) == Some((o, i + enc_rec(o).len() as int)),
{
    match o {
        None => {
        },
        Some(ts) => {
            let a = seq![0x5bu8];
            let b = enc_int(ts.seconds as int);
            let c = seq![0x2cu8];
            let d = enc_int(ts.nanos as int);
            let e = seq![0x5du8];
            lemma_match_at_concat(s, i, a + b + c + d, e);
            lemma_match_at_concat(s, i, a + b + c, d);
            lemma_match_at_concat(s, i, a + b, c);
            lemma_match_at_concat(s, i, a, b);
            let p1 = i + 1;
            let p2 = p1 + b.len();
            let p3 = p2 + 1;
            let p4 = p3 + d.len();
            assert(s.subrange(i, i + 1)[0] == s[i]);
            assert(s[i] == 0x5b);
            if match_at(s, i, lit_null()) {
                assert(s.subrange(i, i + 4)[0] == s[i]);
            }
            assert(parse_lit(s, i, lit_null()) is None);
            assert(s.subrange(p2, p2 + 1)[0] == s[p2]);
            assert(s[p2] == 0x2c && !is_digit(s[p2]));
            lemma_parse_int_enc(s, p1, ts.seconds as int);
            assert(s.subrange(p4, p4 + 1)[0] == s[p4]);
            assert(s[p4] == 0x5d && !is_digit(s[p4]));
            lemma_parse_int_enc(s, p3, ts.nanos as int);
            assert(Timestamp {
                seconds: (ts.seconds as int) as i64,
                nanos: (ts.nanos as int) as i32,
            } == ts);
        },
    }
}

#[verifier::rlimit(100)]
proof fn lemma_parse_tx_enc(s: Seq<u8>, i: int, t: TxModel)
    requires
        match_at(s, i, enc_tx(t)),
        tx_wf(t),
    ensures
        parse_tx_at(s, i) == Some((t, i + enc_tx(t).len() as int)),
{
    reveal(enc_tx);
    reveal(parse_tx_at);
    reveal(parse_tx_tail);
    let c1 = lit_obj_name();
    let c2 = enc_str(t.name);
    let c3 = lit_category();
    let c4 = dig(category_code(t.category));
    let c5 = lit_currency();
    let c6 = dig(currency_code(t.currency));
    let c7 = lit_seconds();
    let c8 = enc_int(t.seconds);
    let c9 = lit_nanos();
    let c10 = enc_int(t.nanos);
    let c10r = lit_recurrence();
    let c10s = enc_rec(t.recurrence);
    let c11 = lit_items();
    let c12 = enc_items(t.items);
    let c13 = lit_tx_close();
    lemma_match_at_concat(
        s,
        i,
        c1 + c2 + c3 + c4 + c5 + c6 + c7 + c8 + c9 + c10 + c10r + c10s + c11 + c12,
        c13,
    );
    lemma_match_at_concat(
        s,
        i,
        c1 + c2 + c3 + c4 + c5 + c6 + c7 + c8 + c9 + c10 + c10r + c10s + c11,
        c12,
    );
    lemma_match_at_concat(
        s,
        i,
        c1 + c2 + c3 + c4 + c5 + c6 + c7 + c8 + c9 + c10 + c10r + c10s,
        c11,
    );
    lemma_match_at_concat(s, i, c1 + c2 + c3 + c4 + c5 + c6 + c7 + c8 + c9 + c10 + c10r, c10s);
    lemma_match_at_concat(s, i, c1 + c2 + c3 + c4 + c5 + c6 + c7 + c8 + c9 + c10, c10r);
    lemma_match_at_concat(s, i, c1 + c2 + c3 + c4 + c5 + c6 + c7 + c8 + c9, c10);
    lemma_match_at_concat(s, i, c1 + c2 + c3 + c4 + c5 + c6 + c7 + c8, c9);
    lemma_match_at_concat(s, i, c1 + c2 + c3 + c4 + c5 + c6 + c7, c8);
    lemma_match_at_concat(s, i, c1 + c2 + c3 + c4 + c5 + c6, c7);
    lemma_match_at_concat(s, i, c1 + c2 + c3 + c4 + c5, c6);
    lemma_match_at_concat(s, i, c1 + c2 + c3 + c4, c5);
    lemma_match_at_concat(s, i, c1 + c2 + c3, c4);
    lemma_match_at_concat(s, i, c1 + c2, c3);
    lemma_match_at_concat(s, i, c1, c2);
    let p1 = i + c1.len();
    let p2 = p1 + c2.len();
    let p3 = p2 + c3.len();
    let p4 = p3 + c4.len();
    let p5 = p4 + c5.len();
    let p6 = p5 + c6.len();
    let p7 = p6 + c7.len();
    let p8 = p7 + c8.len();
    let p9 = p8 + c9.len();
    let p10 = p9 + c10.len();
    let p10r = p10 + c10r.len();
    let p10s = p10r + c10s.len();
    let p11 = p10s + c11.len();
    let p12 = p11 + c12.len();
    assert(parse_lit(s, i, lit_obj_name()) == Some(p1));
    lemma_parse_str_enc(s, p1, t.name);
    assert(parse_lit(s, p2, lit_category()) == Some(p3));
    assert(s.subrange(p4, p4 + c5.len() as int)[0] == s[p4]);
    assert(s[p4] == 0x2c && !is_digit(s[p4]));
    lemma_parse_u64_dig(s, p3, category_code(t.category));
    assert(code_to_category(category_code(t.category)) == Some(t.category)) by {
        match t.category {
            Category::Gas => {},
            Category::FoodAndDrink => {},
            Category::Rent => {},
            Category::Utility => {},
            Category::Cash => {},
            Category::Equity => {},
            Category::TaxableBenefit => {},
            Category::Reimbursement => {},
        }
    }
    assert(parse_lit(s, p4, lit_currency()) == Some(p5));
    assert(s.subrange(p6, p6 + c7.len() as int)[0] == s[p6]);
    assert(s[p6] == 0x2c && !is_digit(s[p6]));
    lemma_parse_u64_dig(s, p5, currency_code(t.currency));
    assert(code_to_currency(currency_code(t.currency)) == Some(t.currency)) by {
        match t.currency {
            Currency::InvalidCurrency => {},
            Currency::Usd => {},
            Currency::Cad => {},
        }
    }
    assert(parse_lit(s, p6, lit_seconds()) == Some(p7));
    assert(s.subrange(p8, p8 + c9.len() as int)[0] == s[p8]);
    assert(s[p8] == 0x2c && !is_digit(s[p8]));
    lemma_parse_int_enc(s, p7, t.seconds);
    assert(parse_lit(s, p8, lit_nanos()) == Some(p9));
    assert(s.subrange(p10, p10 + c10r.len() as int)[0] == s[p10]);
    assert(s[p10] == 0x2c && !is_digit(s[p10]));
    lemma_parse_int_enc(s, p9, t.nanos);
    assert(parse_lit(s, p10, lit_recurrence()) == Some(p10r));
    lemma_parse_rec_enc(s, p10r, t.recurrence);
    assert(parse_lit(s, p10s, lit_items()) == Some(p11));
    assert(s.subrange(p12, p12 + c13.len() as int)[0] == s[p12]);
    assert(s[p12] == 0x5d && s[p12] != 0x2c);
    assert(p12 < s.len());
    lemma_parse_items_enc(s, p11, t.items);
    assert(parse_lit(s, p12, lit_tx_close()) == Some(p12 + 2));
    assert(TxModel {
        name: t.name,
        category: t.category,
        currency: t.currency,
        seconds: t.seconds,
        nanos: t.nanos,
        items: t.items,
        recurrence: t.recurrence,
    } == t);
    assert(parse_tx_at(s, i) == Some((t, i + enc_tx(t).len() as int)));
}

/// Round trip: decoding an encoded well-formed transaction yields exactly
/// that transaction.
pub proof fn lemma_round_trip(t: TxModel)
    requires
        tx_wf(t),
    ensures
        dec_tx(enc_tx(t)) == Some(t),
{
    reveal(dec_tx);
    let s = enc_tx(t);
    assert(s.subrange(0, s.len() as int) =~= s);
    assert(match_at(s, 0, enc_tx(t)));
    lemma_parse_tx_enc(s, 0, t);
}

// ---------------------------------------------------------------------------
// Executable encoder
// ---------------------------------------------------------------------------

/// Appends the bytes of `lit` to `out`.
fn push_lit(out: &mut Vec<u8>, lit: &[u8])
    ensures
        final(out)@ == old(out)@ + lit@,
{
    let mut k: usize = 0;
    while k < lit.len()
        invariant
            k <= lit@.len(),
            out@ == old(out)@ + lit@.subrange(0, k as int),
        decreases lit@.len() - k,
    {
        out.push(lit[k]);
        proof {
            assert(out@ =~= old(out)@ + lit@.subrange(0, k + 1 as int));
        }
        k += 1;
    }
    proof {
        assert(lit@.subrange(0, lit@.len() as int) =~= lit@);
    }
}

/// Appends the decimal digits of `n`.
fn push_u64(out: &mut Vec<u8>, n: u64)
    ensures
        final(out)@ == old(out)@ + dig(n as nat),
    decreases n,
{
    if n < 10 {
        out.push(0x30 + n as u8);
        proof {
            assert(out@ =~= old(out)@ + dig(n as nat));
        }
    } else {
        push_u64(out, n / 10);
        out.push(0x30 + (n % 10) as u8);
        proof {
            assert(out@ =~= old(out)@ + dig(n as nat));
        }
    }
}

/// Appends the canonical decimal form of `v`.
fn push_i64(out: &mut Vec<u8>, v: i64)
    ensures
        final(out)@ == old(out)@ + enc_int(v as int),
{
    if v < 0 {
        out.push(0x2d);
        let m: u64 = (-(v as i128)) as u64;
        proof {
            assert(m as nat == (-(v as int)) as nat);
        }
        push_u64(out, m);
        proof {
            assert(out@ =~= old(out)@ + enc_int(v as int));
        }
    } else {
        push_u64(out, v as u64);
    }
}

proof fn lemma_esc_push(s: Seq<u8>, b: u8)
    ensures
        esc(s.push(b)) == esc(s) + esc_byte(b),
    decreases s.len(),
{
    if s.len() == 0 {
        let p = s.push(b);
        assert(p[0] == b);
        assert(p.subrange(1, 1) =~= Seq::<u8>::empty());
        assert(esc(Seq::<u8>::empty()) == Seq::<u8>::empty());
        assert(esc(p) == esc_byte(b) + esc(Seq::<u8>::empty()));
        assert(esc(s.push(b)) =~= esc(s) + esc_byte(b));
    } else {
        let rest = s.subrange(1, s.len() as int);
        assert(s.push(b).subrange(1, s.len() + 1 as int) =~= rest.push(b));
        lemma_esc_push(rest, b);
        assert(esc(s.push(b)) =~= esc(s) + esc_byte(b));
    }
}

/// Appends the escaped bytes of `name`.
fn push_escaped(out: &mut Vec<u8>, name: &Vec<u8>)
    ensures
        final(out)@ == old(out)@ + esc(name@),
{
    let mut k: usize = 0;
    while k < name.len()
        invariant
            k <= name@.len(),
            out@ == old(out)@ + esc(name@.subrange(0, k as int)),
        decreases name@.len() - k,
    {
        let b = name[k];
        if b == 0x22 || b == 0x5c {
            out.push(0x5c);
        }
        out.push(b);
        proof {
            assert(name@.subrange(0, k + 1 as int) =~= name@.subrange(0, k as int).push(b));
            lemma_esc_push(name@.subrange(0, k as int), b);
            assert(out@ =~= old(out)@ + esc(name@.subrange(0, k + 1 as int)));
        }
        k += 1;
    }
    proof {
        assert(name@.subrange(0, name@.len() as int) =~= name@);
    }
}

/// Appends a quoted, escaped JSON string.
fn push_str_enc(out: &mut Vec<u8>, name: &Vec<u8>)
    ensures
        final(out)@ == old(out)@ + enc_str(name@),
{
    out.push(0x22);
    push_escaped(out, name);
    out.push(0x22);
    proof {
        assert(out@ =~= old(out)@ + enc_str(name@));
    }
}

fn category_code_x(c: Category) -> (r: u64)
    ensures
        r as nat == category_code(c),
{
    match c {
        Category::Gas => 1,
        Category::FoodAndDrink => 2,
        Category::Rent => 3,
        Category::Utility => 4,
        Category::Cash => 5,
        Category::Equity => 6,
        Category::TaxableBenefit => 7,
        Category::Reimbursement => 8,
    }
}

fn currency_code_x(c: Currency) -> (r: u64)
    ensures
        r as nat == currency_code(c),
{
    match c {
        Currency::InvalidCurrency => 0,
        Currency::Usd => 1,
        Currency::Cad => 2,
    }
}

/// Appends one encoded item object.
fn push_item(out: &mut Vec<u8>, it: &Item)
    ensures
        final(out)@ == old(out)@ + enc_item(it@),
{
    let l1: [u8; 8] = [0x7b, 0x22, 0x6e, 0x61, 0x6d, 0x65, 0x22, 0x3a];
    let s1: &[u8] = l1.as_slice();
    push_lit(out, s1);
    proof {
        assert(s1@ =~= lit_obj_name());
    }
    match &it.name {
        Some(n) => push_str_enc(out, n),
        None => {
            let l2: [u8; 4] = [0x6e, 0x75, 0x6c, 0x6c];
            let s2: &[u8] = l2.as_slice();
            push_lit(out, s2);
            proof {
                assert(s2@ =~= lit_null());
            }
        },
    }
    let l3: [u8; 10] = [0x2c, 0x22, 0x61, 0x6d, 0x6f, 0x75, 0x6e, 0x74, 0x22, 0x3a];
    let s3: &[u8] = l3.as_slice();
    push_lit(out, s3);
    proof {
        assert(s3@ =~= lit_amount());
    }
    push_i64(out, it.amount);
    out.push(0x7d);
    proof {
        assert(out@ =~= old(out)@ + enc_item(it@));
    }
}

/// Appends the encoded recurrence field value.
fn push_rec(out: &mut Vec<u8>, o: &Option<Timestamp>)
    ensures
        final(out)@ == old(out)@ + enc_rec(*o),
{
    match o {
        Some(ts) => {
            out.push(0x5b);
            push_i64(out, ts.seconds);
            out.push(0x2c);
            push_i64(out, ts.nanos as i64);
            out.push(0x5d);
            proof {
                assert(out@ =~= old(out)@ + enc_rec(*o));
            }
        },
        None => {
            let l: [u8; 4] = [0x6e, 0x75, 0x6c, 0x6c];
            let sl: &[u8] = l.as_slice();
            push_lit(out, sl);
            proof {
                assert(sl@ =~= lit_null());
                assert(out@ =~= old(out)@ + enc_rec(*o));
            }
        },
    }
}

proof fn lemma_enc_items_push(items: Seq<ItemModel>, it: ItemModel)
    requires
        items.len() >= 1,
    ensures
        enc_items(items.push(it)) == enc_items(items) + seq![0x2cu8] + enc_item(it),
    decreases items.len(),
{
    if items.len() == 1 {
        assert(items.push(it).subrange(1, 2) =~= seq![it]);
        assert(enc_items(seq![it]) == enc_item(it));
        assert(enc_items(items.push(it)) =~= enc_items(items) + seq![0x2cu8] + enc_item(it));
    } else {
        let rest = items.subrange(1, items.len() as int);
        assert(items.push(it).subrange(1, items.len() + 1 as int) =~= rest.push(it));
        lemma_enc_items_push(rest, it);
        assert(enc_items(items.push(it)) =~= enc_items(items) + seq![0x2cu8] + enc_item(it));
    }
}

/// Appends the comma-separated encoded items.
fn push_items(out: &mut Vec<u8>, items: &Vec<Item>)
    ensures
        final(out)@ == old(out)@ + enc_items(items@.map_values(|x: Item| x@)),
{
    let ghost m: Seq<ItemModel> = items@.map_values(|x: Item| x@);
    if items.len() == 0 {
        proof {
            assert(out@ =~= old(out)@ + enc_items(m));
        }
        return ;
    }
    push_item(out, &items[0]);
    proof {
        assert(m.subrange(0, 1) =~= seq![m[0]]);
        assert(enc_items(m.subrange(0, 1)) == enc_item(m[0]));
        assert(out@ =~= old(out)@ + enc_items(m.subrange(0, 1)));
    }
    let mut k: usize = 1;
    while k < items.len()
        invariant
            1 <= k <= items@.len(),
            m == items@.map_values(|x: Item| x@),
            m.len() == items@.len(),
            out@ == old(out)@ + enc_items(m.subrange(0, k as int)),
        decreases items@.len() - k,
    {
        out.push(0x2c);
        push_item(out, &items[k]);
        proof {
            assert(m.subrange(0, k + 1 as int) =~= m.subrange(0, k as int).push(m[k as int]));
            lemma_enc_items_push(m.subrange(0, k as int), m[k as int]);
            assert(m[k as int] == items@[k as int]@);
            assert(out@ =~= old(out)@ + enc_items(m.subrange(0, k + 1 as int)));
        }
        k += 1;
    }
    proof {
        assert(m.subrange(0, m.len() as int) =~= m);
    }
}

/// Serializes a transaction to its one-line record form.
pub fn encode_tx(t: &Transaction) -> (r: Vec<u8>)
    ensures
        r@ == enc_tx(t@),
{
    let mut out: Vec<u8> = Vec::new();
    let l1: [u8; 8] = [0x7b, 0x22, 0x6e, 0x61, 0x6d, 0x65, 0x22, 0x3a];
    let s1: &[u8] = l1.as_slice();
    push_lit(&mut out, s1);
    proof {
        assert(s1@ =~= lit_obj_name());
    }
    push_str_enc(&mut out, &t.name);
    let l2: [u8; 12] = [0x2c, 0x22, 0x63, 0x61, 0x74, 0x65, 0x67, 0x6f, 0x72, 0x79, 0x22, 0x3a];
    let s2: &[u8] = l2.as_slice();
    push_lit(&mut out, s2);
    proof {
        assert(s2@ =~= lit_category());
    }
    push_u64(&mut out, category_code_x(t.category));
    let l3: [u8; 12] = [0x2c, 0x22, 0x63, 0x75, 0x72, 0x72, 0x65, 0x6e, 0x63, 0x79, 0x22, 0x3a];
    let s3: &[u8] = l3.as_slice();
    push_lit(&mut out, s3);
    proof {
        assert(s3@ =~= lit_currency());
    }
    push_u64(&mut out, currency_code_x(t.currency));
    let l4: [u8; 11] = [0x2c, 0x22, 0x73, 0x65, 0x63, 0x6f, 0x6e, 0x64, 0x73, 0x22, 0x3a];
    let s4: &[u8] = l4.as_slice();
    push_lit(&mut out, s4);
    proof {
        assert(s4@ =~= lit_seconds());
    }
    push_i64(&mut out, t.original_date.seconds);
    let l5: [u8; 9] = [0x2c, 0x22, 0x6e, 0x61, 0x6e, 0x6f, 0x73, 0x22, 0x3a];
    let s5: &[u8] = l5.as_slice();
    push_lit(&mut out, s5);
    proof {
        assert(s5@ =~= lit_nanos());
    }
    push_i64(&mut out, t.original_date.nanos as i64);
    let l5r: [u8; 14] = [
        0x2c,
        0x22,
        0x72,
        0x65,
        0x63,
        0x75,
        0x72,
        0x72,
        0x65,
        0x6e,
        0x63,
        0x65,
        0x22,
        0x3a,
    ];
    let s5r: &[u8] = l5r.as_slice();
    push_lit(&mut out, s5r);
    proof {
        assert(s5r@ =~= lit_recurrence());
    }
    push_rec(&mut out, &t.recurrence);
    let l6: [u8; 10] = [0x2c, 0x22, 0x69, 0x74, 0x65, 0x6d, 0x73, 0x22, 0x3a, 0x5b];
    let s6: &[u8] = l6.as_slice();
    push_lit(&mut out, s6);
    proof {
        assert(s6@ =~= lit_items());
    }
    push_items(&mut out, &t.items);
    let l7: [u8; 2] = [0x5d, 0x7d];
    let s7: &[u8] = l7.as_slice();
    push_lit(&mut out, s7);
    proof {
        assert(s7@ =~= lit_tx_close());
        reveal(enc_tx);
        assert(out@ =~= enc_tx(t@));
    }
    out
}

// ---------------------------------------------------------------------------
// Executable decoder
// ---------------------------------------------------------------------------

proof fn lemma_pow10_vals()
    ensures
        pow10(18) == 1000000000000000000,
        pow10(19) == 10000000000000000000,
{
    reveal_with_fuel(pow10, 20);
}

proof fn lemma_pow10_mono(a: nat, b: nat)
    requires
        a <= b,
    ensures
        pow10(a) <= pow10(b),
    decreases b,
{
    if a < b {
        lemma_pow10_mono(a, (b - 1) as nat);
    }
}

/// Consumes the literal `lit` at position `i`, or fails.
fn eat_lit(s: &Vec<u8>, i: usize, lit: &[u8]) -> (r: Option<usize>)
    ensures
        match r {
            Some(j) => parse_lit(s@, i as int, lit@) == Some(j as int) && j == i + lit@.len(),
            None => parse_lit(s@, i as int, lit@) is None,
        },
{
    if i > s.len() || s.len() - i < lit.len() {
        return None;
    }
    let mut k: usize = 0;
    while k < lit.len()
        invariant
            k <= lit@.len(),
            i + lit@.len() <= s@.len(),
            i + lit@.len() <= usize::MAX,
            forall|m: int| 0 <= m < k ==> s@[i + m] == lit@[m],
        decreases lit@.len() - k,
    {
        if s[i + k] != lit[k] {
            proof {
                if match_at(s@, i as int, lit@) {
                    assert(s@.subrange(i as int, i + lit@.len() as int)[k as int] == s@[i + k]);
                }
            }
            return None;
        }
        k += 1;
    }
    proof {
        assert(s@.subrange(i as int, i + lit@.len() as int) =~= lit@);
    }
    Some(i + lit.len())
}

/// Reads a canonical unsigned decimal number.
fn eat_u64(s: &Vec<u8>, i: usize) -> (r: Option<(u64, usize)>)
    ensures
        match r {
            Some(p) => parse_u64(s@, i as int) == Some((p.0 as nat, p.1 as int)) && i < p.1
                <= s@.len(),
            None => parse_u64(s@, i as int) is None,
        },
{
    if i >= s.len() || !(0x30 <= s[i] && s[i] <= 0x39) {
        return None;
    }
    if s[i] == 0x30 && i + 1 < s.len() && 0x30 <= s[i + 1] && s[i + 1] <= 0x39 {
        return None;
    }
    let mut j: usize = i;
    let mut acc: u64 = 0;
    while j < s.len() && 0x30 <= s[j] && s[j] <= 0x39
        invariant
            i <= j <= s@.len(),
            j - i <= 19,
            i < s@.len(),
            is_digit(s@[i as int]),
            !(s@[i as int] == 0x30 && i + 1 < s@.len() && is_digit(s@[i + 1])),
            parse_digits(s@, i as int, 0) == parse_digits(s@, j as int, acc as nat),
            acc < pow10((j - i) as nat),
        decreases s@.len() - j,
    {
        if j - i >= 19 {
            proof {
                let d = (s@[j as int] - 0x30) as nat;
                assert(parse_digits(s@, j as int, acc as nat) == parse_digits(
                    s@,
                    j + 1,
                    (acc as nat) * 10 + d,
                ));
                lemma_parse_digits_ge(s@, j + 1 as int, (acc as nat) * 10 + d);
                assert(parse_digits(s@, i as int, 0).1 >= j + 1);
            }
            return None;
        }
        proof {
            lemma_pow10_vals();
            lemma_pow10_mono((j - i) as nat, 18);
            assert(pow10(((j - i) + 1) as nat) == 10 * pow10((j - i) as nat));
        }
        let d = s[j] - 0x30;
        acc = acc * 10 + d as u64;
        j += 1;
    }
    proof {
        if j == i {
            assert(false);
        }
        assert(parse_digits(s@, j as int, acc as nat) == (acc as nat, j as int));
    }
    Some((acc, j))
}

/// Reads a canonical signed decimal number.
fn eat_int(s: &Vec<u8>, i: usize) -> (r: Option<(i128, usize)>)
    ensures
        match r {
            Some(p) => parse_int(s@, i as int) == Some((p.0 as int, p.1 as int)) && i < p.1
                <= s@.len(),
            None => parse_int(s@, i as int) is None,
        },
{
    if i < s.len() && s[i] == 0x2d {
        match eat_u64(s, i + 1) {
            Some((n, j)) => {
                if n == 0 {
                    None
                } else {
                    Some((-(n as i128), j))
                }
            },
            None => None,
        }
    } else {
        match eat_u64(s, i) {
            Some((n, j)) => Some((n as i128, j)),
            None => None,
        }
    }
}

/// Reads a quoted JSON string, yielding its unescaped bytes.
fn eat_str(s: &Vec<u8>, i: usize) -> (r: Option<(Vec<u8>, usize)>)
    ensures
        match r {
            Some(p) => parse_str(s@, i as int) == Some((p.0@, p.1 as int)) && i < p.1 <= s@.len()
                && clean_bytes(p.0@),
            None => parse_str(s@, i as int) is None,
        },
{
    if !(i < s.len() && s[i] == 0x22) {
        return None;
    }
    let mut acc: Vec<u8> = Vec::new();
    let mut j: usize = i + 1;
    loop
        invariant
            i + 1 <= j <= s@.len(),
            i < s@.len(),
            s@[i as int] == 0x22,
            parse_str_body(s@, i + 1 as int, Seq::empty()) == parse_str_body(s@, j as int, acc@),
            clean_bytes(acc@),
        decreases s@.len() - j,
    {
        if j >= s.len() {
            return None;
        }
        let b = s[j];
        if b == 0x22 {
            return Some((acc, j + 1));
        } else if b == 0x5c {
            if j + 1 < s.len() && (s[j + 1] == 0x22 || s[j + 1] == 0x5c) {
                acc.push(s[j + 1]);
                j += 2;
            } else {
                return None;
            }
        } else if b >= 0x20 {
            acc.push(b);
            j += 1;
        } else {
            return None;
        }
    }
}

fn category_from_code(n: u64) -> (r: Option<Category>)
    ensures
        r == code_to_category(n as nat),
{
    if n == 1 {
        Some(Category::Gas)
    } else if n == 2 {
        Some(Category::FoodAndDrink)
    } else if n == 3 {
        Some(Category::Rent)
    } else if n == 4 {
        Some(Category::Utility)
    } else if n == 5 {
        Some(Category::Cash)
    } else if n == 6 {
        Some(Category::Equity)
    } else if n == 7 {
        Some(Category::TaxableBenefit)
    } else if n == 8 {
        Some(Category::Reimbursement)
    } else {
        None
    }
}

fn currency_from_code(n: u64) -> (r: Option<Currency>)
    ensures
        r == code_to_currency(n as nat),
{
    if n == 0 {
        Some(Currency::InvalidCurrency)
    } else if n == 1 {
        Some(Currency::Usd)
    } else if n == 2 {
        Some(Currency::Cad)
    } else {
        None
    }
}

/// Reads the recurrence field value.
fn eat_rec(s: &Vec<u8>, i: usize) -> (r: Option<(Option<Timestamp>, usize)>)
    ensures
        match r {
            Some(p) => parse_rec(s@, i as int) == Some((p.0, p.1 as int)) && i < p.1 <= s@.len(),
            None => parse_rec(s@, i as int) is None,
        },
{
    let ln: [u8; 4] = [0x6e, 0x75, 0x6c, 0x6c];
    let sn: &[u8] = ln.as_slice();
    proof {
        assert(sn@ =~= lit_null());
    }
    match eat_lit(s, i, sn) {
        Some(j) => {
            return Some((None, j));
        },
        None => {},
    }
    let lb: [u8; 1] = [0x5b];
    let sb: &[u8] = lb.as_slice();
    proof {
        assert(sb@ =~= seq![0x5bu8]);
    }
    let j1 = match eat_lit(s, i, sb) {
        Some(j) => j,
        None => {
            return None;
        },
    };
    let (sec, j2) = match eat_int(s, j1) {
        Some(p) => p,
        None => {
            return None;
        },
    };
    if !(i64::MIN as i128 <= sec && sec <= i64::MAX as i128) {
        return None;
    }
    let lc: [u8; 1] = [0x2c];
    let sc: &[u8] = lc.as_slice();
    proof {
        assert(sc@ =~= seq![0x2cu8]);
    }
    let j3 = match eat_lit(s, j2, sc) {
        Some(j) => j,
        None => {
            return None;
        },
    };
    let (nn, j4) = match eat_int(s, j3) {
        Some(p) => p,
        None => {
            return None;
        },
    };
    if !(i32::MIN as i128 <= nn && nn <= i32::MAX as i128) {
        return None;
    }
    let ld: [u8; 1] = [0x5d];
    let sd: &[u8] = ld.as_slice();
    proof {
        assert(sd@ =~= seq![0x5du8]);
    }
    let j5 = match eat_lit(s, j4, sd) {
        Some(j) => j,
        None => {
            return None;
        },
    };
    Some((Some(Timestamp { seconds: sec as i64, nanos: nn as i32 }), j5))
}

/// Reads one item object.
fn eat_item(s: &Vec<u8>, i: usize) -> (r: Option<(Item, usize)>)
    ensures
        match r {
            Some(p) => parse_item(s@, i as int) == Some((p.0@, p.1 as int)) && i < p.1 <= s@.len()
                && item_wf(p.0@),
            None => parse_item(s@, i as int) is None,
        },
{
    let l1: [u8; 8] = [0x7b, 0x22, 0x6e, 0x61, 0x6d, 0x65, 0x22, 0x3a];
    let s1: &[u8] = l1.as_slice();
    proof {
        assert(s1@ =~= lit_obj_name());
    }
    let j1 = match eat_lit(s, i, s1) {
        Some(j) => j,
        None => {
            return None;
        },
    };
    let l2: [u8; 4] = [0x6e, 0x75, 0x6c, 0x6c];
    let s2: &[u8] = l2.as_slice();
    proof {
        assert(s2@ =~= lit_null());
    }
    let (name, j2): (Option<Vec<u8>>, usize) = match eat_lit(s, j1, s2) {
        Some(j) => (None, j),
        None => match eat_str(s, j1) {
            Some((v, j)) => (Some(v), j),
            None => {
                return None;
            },
        },
    };
    let l3: [u8; 10] = [0x2c, 0x22, 0x61, 0x6d, 0x6f, 0x75, 0x6e, 0x74, 0x22, 0x3a];
    let s3: &[u8] = l3.as_slice();
    proof {
        assert(s3@ =~= lit_amount());
    }
    let j3 = match eat_lit(s, j2, s3) {
        Some(j) => j,
        None => {
            return None;
        },
    };
    let (v, j4) = match eat_int(s, j3) {
        Some(p) => p,
        None => {
            return None;
        },
    };
    if !(-(AMOUNT_LIMIT as i128) <= v && v <= AMOUNT_LIMIT as i128) {
        return None;
    }
    let l4: [u8; 1] = [0x7d];
    let s4: &[u8] = l4.as_slice();
    proof {
        assert(s4@ =~= seq![0x7du8]);
    }
    let j5 = match eat_lit(s, j4, s4) {
        Some(j) => j,
        None => {
            return None;
        },
    };
    Some((Item { name, amount: v as i64 }, j5))
}

/// Reads a non-empty, comma-separated list of item objects.
fn eat_items(s: &Vec<u8>, i: usize) -> (r: Option<(Vec<Item>, usize)>)
    ensures
        match r {
            Some(p) => parse_items(s@, i as int) == Some((
                p.0@.map_values(|x: Item| x@),
                p.1 as int,
            )) && i < p.1 <= s@.len() && p.0@.len() >= 1 && (forall|k: int|
                0 <= k < p.0@.len() ==> item_wf(#[trigger] p.0@[k]@)),
            None => parse_items(s@, i as int) is None,
        },
    decreases s@.len() - i,
{
    let (it, j) = match eat_item(s, i) {
        Some(p) => p,
        None => {
            return None;
        },
    };
    if j < s.len() && s[j] == 0x2c {
        match eat_items(s, j + 1) {
            Some((rest, k)) => {
                let ghost restview: Seq<Item> = rest@;
                let mut v: Vec<Item> = Vec::new();
                v.push(it);
                let mut rest2 = rest;
                v.append(&mut rest2);
                proof {
                    assert(v@.map_values(|x: Item| x@) =~= seq![it@] + restview.map_values(
                        |x: Item| x@,
                    ));
                }
                Some((v, k))
            },
            None => None,
        }
    } else {
        let mut v: Vec<Item> = Vec::new();
        v.push(it);
        proof {
            assert(v@.map_values(|x: Item| x@) =~= seq![it@]);
        }
        Some((v, j))
    }
}

/// Deserializes one store line. Fails on any line that is not a canonical
/// record; a decoded transaction is always well-formed.
pub fn decode_tx(line: &Vec<u8>) -> (r: Option<Transaction>)
    ensures
        match r {
            Some(t) => dec_tx(line@) == Some(t@) && tx_wf(t@),
            None => dec_tx(line@) is None,
        },
{
    proof {
        reveal(dec_tx);
        reveal(parse_tx_at);
        reveal(parse_tx_tail);
    }
    let l1: [u8; 8] = [0x7b, 0x22, 0x6e, 0x61, 0x6d, 0x65, 0x22, 0x3a];
    let s1: &[u8] = l1.as_slice();
    proof {
        assert(s1@ =~= lit_obj_name());
    }
    let j1 = match eat_lit(line, 0, s1) {
        Some(j) => j,
        None => {
            return None;
        },
    };
    let (name, j2) = match eat_str(line, j1) {
        Some(p) => p,
        None => {
            return None;
        },
    };
    if name.len() == 0 {
        return None;
    }
    let l2: [u8; 12] = [0x2c, 0x22, 0x63, 0x61, 0x74, 0x65, 0x67, 0x6f, 0x72, 0x79, 0x22, 0x3a];
    let s2: &[u8] = l2.as_slice();
    proof {
        assert(s2@ =~= lit_category());
    }
    let j3 = match eat_lit(line, j2, s2) {
        Some(j) => j,
        None => {
            return None;
        },
    };
    let (cn, j4) = match eat_u64(line, j3) {
        Some(p) => p,
        None => {
            return None;
        },
    };
    let category = match category_from_code(cn) {
        Some(c) => c,
        None => {
            return None;
        },
    };
    let l3: [u8; 12] = [0x2c, 0x22, 0x63, 0x75, 0x72, 0x72, 0x65, 0x6e, 0x63, 0x79, 0x22, 0x3a];
    let s3: &[u8] = l3.as_slice();
    proof {
        assert(s3@ =~= lit_currency());
    }
    let j5 = match eat_lit(line, j4, s3) {
        Some(j) => j,
        None => {
            return None;
        },
    };
    let (un, j6) = match eat_u64(line, j5) {
        Some(p) => p,
        None => {
            return None;
        },
    };
    let currency = match currency_from_code(un) {
        Some(c) => c,
        None => {
            return None;
        },
    };
    let l4: [u8; 11] = [0x2c, 0x22, 0x73, 0x65, 0x63, 0x6f, 0x6e, 0x64, 0x73, 0x22, 0x3a];
    let s4: &[u8] = l4.as_slice();
    proof {
        assert(s4@ =~= lit_seconds());
    }
    let j7 = match eat_lit(line, j6, s4) {
        Some(j) => j,
        None => {
            return None;
        },
    };
    let (sv, j8) = match eat_int(line, j7) {
        Some(p) => p,
        None => {
            return None;
        },
    };
    if !(i64::MIN as i128 <= sv && sv <= i64::MAX as i128) {
        return None;
    }
    let l5: [u8; 9] = [0x2c, 0x22, 0x6e, 0x61, 0x6e, 0x6f, 0x73, 0x22, 0x3a];
    let s5: &[u8] = l5.as_slice();
    proof {
        assert(s5@ =~= lit_nanos());
    }
    let j9 = match eat_lit(line, j8, s5) {
        Some(j) => j,
        None => {
            return None;
        },
    };
    let (nv, j10) = match eat_int(line, j9) {
        Some(p) => p,
        None => {
            return None;
        },
    };
    if !(i32::MIN as i128 <= nv && nv <= i32::MAX as i128) {
        return None;
    }
    let lr: [u8; 14] = [
        0x2c,
        0x22,
        0x72,
        0x65,
        0x63,
        0x75,
        0x72,
        0x72,
        0x65,
        0x6e,
        0x63,
        0x65,
        0x22,
        0x3a,
    ];
    let sr: &[u8] = lr.as_slice();
    proof {
        assert(sr@ =~= lit_recurrence());
    }
    let j10r = match eat_lit(line, j10, sr) {
        Some(j) => j,
        None => {
            return None;
        },
    };
    let (recurrence, j10s) = match eat_rec(line, j10r) {
        Some(p) => p,
        None => {
            return None;
        },
    };
    let l6: [u8; 10] = [0x2c, 0x22, 0x69, 0x74, 0x65, 0x6d, 0x73, 0x22, 0x3a, 0x5b];
    let s6: &[u8] = l6.as_slice();
    proof {
        assert(s6@ =~= lit_items());
    }
    let j11 = match eat_lit(line, j10s, s6) {
        Some(j) => j,
        None => {
            return None;
        },
    };
    let (items, j12) = match eat_items(line, j11) {
        Some(p) => p,
        None => {
            return None;
        },
    };
    let net = crate::transaction::sum_items(&items);
    if !(-(NET_LIMIT as i128) <= net && net <= NET_LIMIT as i128) {
        return None;
    }
    let l7: [u8; 2] = [0x5d, 0x7d];
    let s7: &[u8] = l7.as_slice();
    proof {
        assert(s7@ =~= lit_tx_close());
    }
    let j13 = match eat_lit(line, j12, s7) {
        Some(j) => j,
        None => {
            return None;
        },
    };
    if j13 != line.len() {
        return None;
    }
    let t = Transaction {
        name,
        category,
        currency,
        original_date: Timestamp { seconds: sv as i64, nanos: nv as i32 },
        items,
        recurrence,
    };
    proof {
        assert(t@.items == items@.map_values(|x: Item| x@));
    }
    Some(t)
}

} // verus!
