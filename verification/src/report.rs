//! The listing report: replays transactions in store order, keeps an
//! exact running total in cents, and renders each transaction as a cost
//! entry (with one line per item) or a profit entry.

use vstd::prelude::*;

use crate::codec::dig;
use crate::transaction::{
    item_wf, net_of, sum_items, tx_wf, ItemModel, Transaction, TxModel, NET_LIMIT,
};

verus! {

pub open spec fn abs_of(v: int) -> int {
    if v < 0 {
        -v
    } else {
        v
    }
}

/// One indented line under a cost entry: the item's absolute amount and
/// its resolved display name (the item's own, or the transaction's when
/// the item carries none).
pub struct ReportItemLine {
    pub amount_abs: i64,
    pub name: Vec<u8>,
}

/// Mathematical model of a `ReportItemLine`.
pub struct ItemLineModel {
    pub amount_abs: int,
    pub name: Seq<u8>,
}

impl View for ReportItemLine {
    type V = ItemLineModel;

    open spec fn view(&self) -> ItemLineModel {
        ItemLineModel { amount_abs: self.amount_abs as int, name: self.name@ }
    }
}

/// One rendered transaction: a cost entry lists its items, a profit entry
/// (net amount zero or positive) is a single line.
pub struct ReportEntry {
    pub is_cost: bool,
    pub net_abs: i64,
    pub name: Vec<u8>,
    pub item_lines: Vec<ReportItemLine>,
}

/// Mathematical model of a `ReportEntry`.
pub struct EntryModel {
    pub is_cost: bool,
    pub net_abs: int,
    pub name: Seq<u8>,
    pub item_lines: Seq<ItemLineModel>,
}

impl View for ReportEntry {
    type V = EntryModel;

    open spec fn view(&self) -> EntryModel {
        EntryModel {
            is_cost: self.is_cost,
            net_abs: self.net_abs as int,
            name: self.name@,
            item_lines: self.item_lines@.map_values(|l: ReportItemLine| l@),
        }
    }
}

/// The whole listing: one entry per transaction, in store order, and the
/// signed running total in cents.
pub struct Report {
    pub entries: Vec<ReportEntry>,
    pub total: i128,
}

/// The display name an item resolves to.
pub open spec fn resolved_name(t: TxModel, it: ItemModel) -> Seq<u8> {
    match it.name {
        Some(n) => n,
        None => t.name,
    }
}

pub open spec fn item_line_of(t: TxModel, it: ItemModel) -> ItemLineModel {
    ItemLineModel { amount_abs: abs_of(it.amount), name: resolved_name(t, it) }
}

/// How one transaction renders: costs itemize, profits do not; a net
/// amount of exactly zero renders as a profit.
pub open spec fn entry_of(t: TxModel) -> EntryModel {
    EntryModel {
        is_cost: net_of(t) < 0,
        net_abs: abs_of(net_of(t)),
        name: t.name,
        item_lines: if net_of(t) < 0 {
            t.items.map_values(|it: ItemModel| item_line_of(t, it))
        } else {
            Seq::empty()
        },
    }
}

/// The running total of a sequence of transactions, in cents: each
/// transaction's net amount, accumulated in store order.
pub open spec fn total_of(ts: Seq<TxModel>) -> int
    decreases ts.len(),
{
    if ts.len() == 0 {
        0
    } else {
        total_of(ts.drop_last()) + net_of(ts.last())
    }
}

/// Copies a byte string.
fn copy_bytes(v: &Vec<u8>) -> (r: Vec<u8>)
    ensures
        r@ == v@,
{
    let mut out: Vec<u8> = Vec::new();
    let mut k: usize = 0;
    while k < v.len()
        invariant
            k <= v@.len(),
            out@ == v@.subrange(0, k as int),
        decreases v@.len() - k,
    {
        out.push(v[k]);
        proof {
            assert(out@ =~= v@.subrange(0, k + 1 as int));
        }
        k += 1;
    }
    proof {
        assert(v@.subrange(0, v@.len() as int) =~= v@);
    }
    out
}

/// Builds the item lines of one cost entry.
fn item_lines_for(t: &Transaction) -> (r: Vec<ReportItemLine>)
    requires
        tx_wf(t@),
    ensures
        r@.map_values(|l: ReportItemLine| l@) == t@.items.map_values(
            |it: ItemModel| item_line_of(t@, it),
        ),
{
    let ghost goal: Seq<ItemLineModel> = t@.items.map_values(|it: ItemModel| item_line_of(t@, it));
    let mut out: Vec<ReportItemLine> = Vec::new();
    let mut k: usize = 0;
    while k < t.items.len()
        invariant
            tx_wf(t@),
            k <= t.items@.len(),
            t@.items.len() == t.items@.len(),
            goal == t@.items.map_values(|it: ItemModel| item_line_of(t@, it)),
            out@.len() == k,
            forall|j: int| 0 <= j < k ==> out@[j]@ == goal[j],
        decreases t.items@.len() - k,
    {
        let it = &t.items[k];
        proof {
            assert(t@.items[k as int] == t.items@[k as int]@);
            assert(item_wf(t@.items[k as int]));
        }
        let a = it.amount;
        let amount_abs: i64 = if a < 0 {
            -a
        } else {
            a
        };
        let name: Vec<u8> = match &it.name {
            Some(n) => copy_bytes(n),
            None => copy_bytes(&t.name),
        };
        out.push(ReportItemLine { amount_abs, name });
        k += 1;
    }
    proof {
        assert(out@.map_values(|l: ReportItemLine| l@) =~= goal);
    }
    out
}

/// Builds the listing report for transactions replayed from the store:
/// the total is the exact arithmetic sum, in cents, of every
/// transaction's item-amount sum, accumulated in store order.
pub fn report(ts: &Vec<Transaction>) -> (r: Report)
    requires
        forall|k: int| 0 <= k < ts@.len() ==> tx_wf(#[trigger] ts@[k]@),
    ensures
        r.total as int == total_of(ts@.map_values(|t: Transaction| t@)),
        r.entries@.len() == ts@.len(),
        forall|k: int| 0 <= k < ts@.len() ==> #[trigger] r.entries@[k]@ == entry_of(ts@[k]@),
{
    let ghost m: Seq<TxModel> = ts@.map_values(|t: Transaction| t@);
    let mut entries: Vec<ReportEntry> = Vec::new();
    let mut total: i128 = 0;
    let mut k: usize = 0;
    while k < ts.len()
        invariant
            k <= ts@.len(),
            m == ts@.map_values(|t: Transaction| t@),
            m.len() == ts@.len(),
            forall|q: int| 0 <= q < ts@.len() ==> tx_wf(#[trigger] ts@[q]@),
            entries@.len() == k,
            forall|j: int| 0 <= j < k ==> #[trigger] entries@[j]@ == entry_of(m[j]),
            total as int == total_of(m.subrange(0, k as int)),
            -(k as int) * (NET_LIMIT as int) <= total as int <= (k as int) * (NET_LIMIT as int),
        decreases ts@.len() - k,
    {
        let t = &ts[k];
        proof {
            assert(m[k as int] == ts@[k as int]@);
            assert(tx_wf(t@));
            assert forall|j: int| 0 <= j < t.items@.len() implies item_wf(#[trigger] t.items@[j]@) by {
                assert(t@.items[j] == t.items@[j]@);
            }
        }
        let net = sum_items(&t.items);
        proof {
            assert(net as int == net_of(m[k as int]));
            assert(-(NET_LIMIT as int) <= net as int <= NET_LIMIT as int);
            assert((k as int) * (NET_LIMIT as int) + NET_LIMIT as int == ((k as int) + 1) * (
            NET_LIMIT as int)) by (nonlinear_arith);
            assert(((k as int) + 1) * (NET_LIMIT as int) <= 0x10000000000000000 * (NET_LIMIT
                as int)) by (nonlinear_arith)
                requires
                    (k as int) + 1 <= 0x10000000000000000,
            ;
        }
        let is_cost = net < 0;
        let net_abs: i64 = if net < 0 {
            (-net) as i64
        } else {
            net as i64
        };
        let item_lines: Vec<ReportItemLine> = if is_cost {
            item_lines_for(t)
        } else {
            Vec::new()
        };
        let name = copy_bytes(&t.name);
        let entry = ReportEntry { is_cost, net_abs, name, item_lines };
        proof {
            if !is_cost {
                assert(entry.item_lines@.map_values(|l: ReportItemLine| l@) =~= Seq::<
                    ItemLineModel,
                >::empty());
            }
            assert(entry@ == entry_of(m[k as int]));
        }
        entries.push(entry);
        total = total + net;
        proof {
            let sub1 = m.subrange(0, (k + 1) as int);
            assert(sub1.drop_last() =~= m.subrange(0, k as int));
            assert(sub1.last() == m[k as int]);
        }
        k += 1;
    }
    proof {
        assert(m.subrange(0, m.len() as int) =~= m);
    }
    Report { entries, total }
}

/// The decimal rendering of a cents value: a minus sign when negative,
/// the whole currency units, a point, and exactly two fraction digits.
pub open spec fn fmt_cents_spec(v: int) -> Seq<u8> {
    let m = abs_of(v);
    let sign: Seq<u8> = if v < 0 {
        seq![0x2du8]
    } else {
        Seq::empty()
    };
    sign + dig((m / 100) as nat) + seq![0x2eu8, (0x30 + (m % 100) / 10) as u8, (0x30 + m % 10)
        as u8]
}

/// Appends the decimal digits of `n`.
fn push_u128(out: &mut Vec<u8>, n: u128)
    ensures
        final(out)@ == old(out)@ + dig(n as nat),
    decreases n,
{
    if n < 10 {
        out.push(0x30 + n as u8);
        proof {
            assert(out@ =~= old(out)@ + dig(n as nat));
        }
    } else {
        push_u128(out, n / 10);
        out.push(0x30 + (n % 10) as u8);
        proof {
            assert(out@ =~= old(out)@ + dig(n as nat));
        }
    }
}

/// The head line of one entry: a sign, the absolute net amount, a space
/// and the transaction's name; costs carry `-`, profits `+`.
pub open spec fn head_line_of(e: EntryModel) -> Seq<u8> {
    (if e.is_cost {
        seq![0x2du8]
    } else {
        seq![0x2bu8]
    }) + fmt_cents_spec(e.net_abs) + seq![0x20u8] + e.name
}

/// One indented item line under a cost entry.
pub open spec fn item_line_text(l: ItemLineModel) -> Seq<u8> {
    seq![0x20u8, 0x20u8] + fmt_cents_spec(l.amount_abs) + seq![0x20u8] + l.name
}

/// The text lines one entry contributes to the listing.
pub open spec fn lines_of_entry(e: EntryModel) -> Seq<Seq<u8>> {
    seq![head_line_of(e)] + e.item_lines.map_values(|l: ItemLineModel| item_line_text(l))
}

/// The entry lines of the whole listing, in store order.
pub open spec fn body_lines_of(entries: Seq<EntryModel>) -> Seq<Seq<u8>>
    decreases entries.len(),
{
    if entries.len() == 0 {
        Seq::empty()
    } else {
        body_lines_of(entries.drop_last()) + lines_of_entry(entries.last())
    }
}

/// The full rendered listing: every entry's lines, then the signed total.
pub open spec fn render_spec(entries: Seq<EntryModel>, total: int) -> Seq<Seq<u8>> {
    body_lines_of(entries).push(fmt_cents_spec(total))
}

/// Appends the bytes of `v` to `out`.
fn append_bytes(out: &mut Vec<u8>, v: &Vec<u8>)
    ensures
        final(out)@ == old(out)@ + v@,
{
    let mut k: usize = 0;
    while k < v.len()
        invariant
            k <= v@.len(),
            out@ == old(out)@ + v@.subrange(0, k as int),
        decreases v@.len() - k,
    {
        out.push(v[k]);
        proof {
            assert(out@ =~= old(out)@ + v@.subrange(0, k + 1 as int));
        }
        k += 1;
    }
    proof {
        assert(v@.subrange(0, v@.len() as int) =~= v@);
    }
}

/// Renders one entry's text lines.
fn render_entry(e: &ReportEntry) -> (lines: Vec<Vec<u8>>)
    ensures
        lines@.map_values(|l: Vec<u8>| l@) == lines_of_entry(e@),
{
    let mut lines: Vec<Vec<u8>> = Vec::new();
    let mut head: Vec<u8> = Vec::new();
    head.push(if e.is_cost {
        0x2d
    } else {
        0x2b
    });
    let amount = fmt_cents(e.net_abs as i128);
    append_bytes(&mut head, &amount);
    head.push(0x20);
    append_bytes(&mut head, &e.name);
    proof {
        assert(head@ =~= head_line_of(e@));
    }
    lines.push(head);
    let ghost goal: Seq<Seq<u8>> = e@.item_lines.map_values(|l: ItemLineModel| item_line_text(l));
    let mut k: usize = 0;
    while k < e.item_lines.len()
        invariant
            k <= e.item_lines@.len(),
            goal == e@.item_lines.map_values(|l: ItemLineModel| item_line_text(l)),
            goal.len() == e.item_lines@.len(),
            lines@.len() == k + 1,
            lines@[0]@ == head_line_of(e@),
            forall|j: int| 0 <= j < k ==> lines@[j + 1]@ == goal[j],
        decreases e.item_lines@.len() - k,
    {
        let il = &e.item_lines[k];
        let mut text: Vec<u8> = Vec::new();
        text.push(0x20);
        text.push(0x20);
        let amt = fmt_cents(il.amount_abs as i128);
        append_bytes(&mut text, &amt);
        text.push(0x20);
        append_bytes(&mut text, &il.name);
        proof {
            assert(e@.item_lines[k as int] == e.item_lines@[k as int]@);
            assert(text@ =~= item_line_text(e@.item_lines[k as int]));
        }
        lines.push(text);
        k += 1;
    }
    proof {
        assert(lines@.map_values(|l: Vec<u8>| l@) =~= lines_of_entry(e@));
    }
    lines
}

/// Renders the whole listing as text lines: each transaction's entry in
/// store order, then the signed running total as the last line.
pub fn render_report(r: &Report) -> (lines: Vec<Vec<u8>>)
    ensures
        lines@.map_values(|l: Vec<u8>| l@) == render_spec(
            r.entries@.map_values(|e: ReportEntry| e@),
            r.total as int,
        ),
{
    let ghost m: Seq<EntryModel> = r.entries@.map_values(|e: ReportEntry| e@);
    let mut lines: Vec<Vec<u8>> = Vec::new();
    let mut k: usize = 0;
    while k < r.entries.len()
        invariant
            k <= r.entries@.len(),
            m == r.entries@.map_values(|e: ReportEntry| e@),
            m.len() == r.entries@.len(),
            lines@.map_values(|l: Vec<u8>| l@) == body_lines_of(m.subrange(0, k as int)),
        decreases r.entries@.len() - k,
    {
        let mut entry_lines = render_entry(&r.entries[k]);
        let ghost before: Seq<Vec<u8>> = lines@;
        let ghost group: Seq<Vec<u8>> = entry_lines@;
        lines.append(&mut entry_lines);
        proof {
            let sub1 = m.subrange(0, (k + 1) as int);
            assert(sub1.drop_last() =~= m.subrange(0, k as int));
            assert(sub1.last() == m[k as int]);
            assert(m[k as int] == r.entries@[k as int]@);
            assert((before + group).map_values(|l: Vec<u8>| l@) =~= before.map_values(
                |l: Vec<u8>| l@,
            ) + group.map_values(|l: Vec<u8>| l@));
            assert(lines@.map_values(|l: Vec<u8>| l@) =~= body_lines_of(sub1));
        }
        k += 1;
    }
    let total_line = fmt_cents(r.total);
    lines.push(total_line);
    proof {
        assert(m.subrange(0, m.len() as int) =~= m);
        assert(lines@.map_values(|l: Vec<u8>| l@) =~= render_spec(m, r.total as int));
    }
    lines
}

/// Renders a cents value for display, e.g. `-12.50`.
pub fn fmt_cents(v: i128) -> (r: Vec<u8>)
    ensures
        r@ == fmt_cents_spec(v as int),
{
    let mut out: Vec<u8> = Vec::new();
    let neg = v < 0;
    if neg {
        out.push(0x2d);
    }
    let m: u128 = if v < 0 {
        ((-(v + 1)) as u128) + 1
    } else {
        v as u128
    };
    proof {
        assert(m as int == abs_of(v as int));
    }
    push_u128(&mut out, m / 100);
    out.push(0x2e);
    let f: u8 = (m % 100) as u8;
    out.push(0x30 + f / 10);
    out.push(0x30 + f % 10);
    proof {
        assert((m / 100) as nat == (abs_of(v as int) / 100) as nat);
        assert(f as int == abs_of(v as int) % 100);
        assert(f % 10 == abs_of(v as int) % 10);
        assert(out@ =~= fmt_cents_spec(v as int));
    }
    out
}

} // verus!
