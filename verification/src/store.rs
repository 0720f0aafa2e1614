//! The append-only transaction store, modeled as the sequence of its
//! record lines. Opening, appending and reading back are exact: the spec
//! function `read_spec` says what a replay of the whole store yields, and
//! the replay lemma shows that appended transactions come back unchanged.

use vstd::prelude::*;

use crate::codec::{dec_tx, decode_tx, enc_tx, encode_tx, lemma_round_trip};
use crate::transaction::{tx_wf, Transaction, TxModel};

verus! {

/// Replay of a whole store: every line decoded in order, or the index of
/// the first line that does not decode. One bad record fails the whole
/// read; nothing is skipped.
pub open spec fn read_spec(lines: Seq<Seq<u8>>) -> Result<Seq<TxModel>, int>
    decreases lines.len(),
{
    if lines.len() == 0 {
        Ok(Seq::empty())
    } else {
        match dec_tx(lines[0]) {
            Some(t) => match read_spec(lines.subrange(1, lines.len() as int)) {
                Ok(rest) => Ok(seq![t] + rest),
                Err(i) => Err(i + 1),
            },
            None => Err(0),
        }
    }
}

proof fn lemma_read_spec_all_ok(lines: Seq<Seq<u8>>, tsm: Seq<TxModel>)
    requires
        tsm.len() == lines.len(),
        forall|j: int| 0 <= j < lines.len() ==> dec_tx(#[trigger] lines[j]) == Some(tsm[j]),
    ensures
        read_spec(lines) == Ok::<Seq<TxModel>, int>(tsm),
    decreases lines.len(),
{
    if lines.len() == 0 {
        assert(tsm =~= Seq::<TxModel>::empty());
    } else {
        let lrest = lines.subrange(1, lines.len() as int);
        let trest = tsm.subrange(1, tsm.len() as int);
        assert(forall|j: int| 0 <= j < lrest.len() ==> dec_tx(#[trigger] lrest[j]) == Some(
            trest[j],
        ));
        lemma_read_spec_all_ok(lrest, trest);
        assert(seq![tsm[0]] + trest =~= tsm);
    }
}

proof fn lemma_read_spec_first_bad(lines: Seq<Seq<u8>>, k: int)
    requires
        0 <= k < lines.len(),
        dec_tx(lines[k]) is None,
        forall|j: int| 0 <= j < k ==> dec_tx(#[trigger] lines[j]) is Some,
    ensures
        read_spec(lines) == Err::<Seq<TxModel>, int>(k),
    decreases lines.len(),
{
    if k == 0 {
    } else {
        let lrest = lines.subrange(1, lines.len() as int);
        lemma_read_spec_first_bad(lrest, k - 1);
    }
}

/// The durable ledger of all transactions: an ordered log of record
/// lines, appended to and replayed from the start, never edited.
pub struct Store {
    lines: Vec<Vec<u8>>,
}

impl View for Store {
    type V = Seq<Seq<u8>>;

    closed spec fn view(&self) -> Seq<Seq<u8>> {
        self.lines@.map_values(|l: Vec<u8>| l@)
    }
}

impl Store {
    /// A store with no records yet.
    pub fn new() -> (s: Store)
        ensures
            s@ == Seq::<Seq<u8>>::empty(),
    {
        let s = Store { lines: Vec::new() };
        proof {
            assert(s@ =~= Seq::<Seq<u8>>::empty());
        }
        s
    }

    /// A store positioned over the record lines read from the log file.
    pub fn from_lines(lines: Vec<Vec<u8>>) -> (s: Store)
        ensures
            s@ == lines@.map_values(|l: Vec<u8>| l@),
    {
        Store { lines }
    }

    /// Serializes the transaction, appends it as one record line, and
    /// hands the encoded line back so the caller can persist it.
    pub fn append(&mut self, t: &Transaction) -> (line: Vec<u8>)
        requires
            tx_wf(t@),
        ensures
            line@ == enc_tx(t@),
            final(self)@ == old(self)@.push(line@),
    {
        // Encoded twice: one copy goes into the log, the identical copy
        // goes back to the caller to be written out.
        let stored = encode_tx(t);
        self.lines.push(stored);
        let line = encode_tx(t);
        proof {
            assert(self@ =~= old(self)@.push(line@));
        }
        line
    }

    /// Replays the whole store from its first record. A record that does
    /// not decode fails the read with its line index; nothing is skipped.
    pub fn read(&self) -> (r: Result<Vec<Transaction>, usize>)
        ensures
            match r {
                Ok(ts) => read_spec(self@) == Ok::<Seq<TxModel>, int>(ts@.map_values(|t: Transaction| t@)) && forall|
                    k: int,
                |
                    0 <= k < ts@.len() ==> tx_wf(#[trigger] ts@[k]@),
                Err(i) => read_spec(self@) == Err::<Seq<TxModel>, int>(i as int) && i < self@.len(),
            },
    {
        let mut ts: Vec<Transaction> = Vec::new();
        let mut k: usize = 0;
        while k < self.lines.len()
            invariant
                k <= self@.len(),
                self@.len() == self.lines@.len(),
                ts@.len() == k,
                forall|j: int| 0 <= j < k ==> dec_tx(#[trigger] self@[j]) == Some(ts@[j]@),
                forall|j: int| 0 <= j < k ==> tx_wf(#[trigger] ts@[j]@),
            decreases self@.len() - k,
        {
            match decode_tx(&self.lines[k]) {
                Some(t) => {
                    ts.push(t);
                },
                None => {
                    proof {
                        lemma_read_spec_first_bad(self@, k as int);
                    }
                    return Err(k);
                },
            }
            k += 1;
        }
        proof {
            lemma_read_spec_all_ok(self@, ts@.map_values(|t: Transaction| t@));
        }
        Ok(ts)
    }

    /// The number of record lines in the store.
    pub fn len(&self) -> (r: usize)
        ensures
            r == self@.len(),
    {
        self.lines.len()
    }
}

/// Replay law: encode any sequence of well-formed transactions as store
/// lines, and reading the store back yields exactly those transactions,
/// in order, with all field values intact.
#[verifier::rlimit(100)]
pub proof fn lemma_store_replay(ts: Seq<TxModel>)
    requires
        forall|k: int| 0 <= k < ts.len() ==> tx_wf(#[trigger] ts[k]),
    ensures
        read_spec(ts.map_values(|t: TxModel| enc_tx(t))) == Ok::<Seq<TxModel>, int>(ts),
    decreases ts.len(),
{
    let lines = ts.map_values(|t: TxModel| enc_tx(t));
    if ts.len() == 0 {
        assert(lines =~= Seq::<Seq<u8>>::empty());
        assert(ts =~= Seq::<TxModel>::empty());
    } else {
        lemma_round_trip(ts[0]);
        assert(lines[0] == enc_tx(ts[0]));
        assert(dec_tx(lines[0]) == Some(ts[0]));
        let trest = ts.subrange(1, ts.len() as int);
        lemma_store_replay(trest);
        assert(lines.subrange(1, lines.len() as int) =~= trest.map_values(
            |t: TxModel| enc_tx(t),
        ));
        assert(read_spec(lines.subrange(1, lines.len() as int)) == Ok::<Seq<TxModel>, int>(trest));
        assert(seq![ts[0]] + trest =~= ts);
        assert(read_spec(lines) == Ok::<Seq<TxModel>, int>(seq![ts[0]] + trest));
    }
}

/// Reading a store is deterministic: the outcome is a function of the
/// store's contents alone, so two reads with no append between them give
/// identical results.
pub proof fn lemma_read_idempotent(
    lines: Seq<Seq<u8>>,
    r1: Result<Seq<TxModel>, int>,
    r2: Result<Seq<TxModel>, int>,
)
    requires
        r1 == read_spec(lines),
        r2 == read_spec(lines),
    ensures
        r1 == r2,
{
}

/// Boundary: an empty store reads back as no transactions at all.
pub proof fn lemma_empty_store()
    ensures
        read_spec(Seq::<Seq<u8>>::empty()) == Ok::<Seq<TxModel>, int>(Seq::<TxModel>::empty()),
{
}

} // verus!
