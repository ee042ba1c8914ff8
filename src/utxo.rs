//! Resolution of a descriptor's outputs: a set of unspent outputs keyed by
//! outpoint, and the sequence of script queries one pass over an index range
//! makes.

use vstd::prelude::*;

use crate::ranges::{indices, IndexIter, IndexRangeSet};
use crate::scripts::{
    generated, templates_view, DescriptorAccount, DescriptorError, ScriptTemplate, ScriptVariant,
    Template, Unsupported,
};

verus! {

/// A transaction output: transaction id and output index.
#[derive(Clone, Copy, Debug, PartialEq, Eq)]
pub struct OutPoint {
    pub txid: [u8; 32],
    pub vout: u32,
}

pub open spec fn outpoint_view(o: OutPoint) -> (Seq<u8>, u32) {
    (o.txid@, o.vout)
}

impl OutPoint {
    pub fn same_as(&self, other: &OutPoint) -> (r: bool)
        ensures
            r == (outpoint_view(*self) == outpoint_view(*other)),
    {
        if self.vout != other.vout {
            return false;
        }
        let mut i: usize = 0;
        while i < 32
            invariant
                i <= 32,
                self.txid@.len() == 32,
                other.txid@.len() == 32,
                forall|k: int| 0 <= k < i ==> self.txid@[k] == other.txid@[k],
            decreases 32 - i,
        {
            if self.txid[i] != other.txid[i] {
                return false;
            }
            i = i + 1;
        }
        assert(self.txid@ =~= other.txid@);
        true
    }
}

/// An unspent output found for a descriptor: where it is, its value, and the
/// derivation index and encoding of the script it pays.
#[derive(Clone, Copy, Debug, PartialEq, Eq)]
pub struct UtxoEntry {
    pub outpoint: OutPoint,
    pub value: u64,
    pub index: u32,
    pub variant: ScriptVariant,
}

/// Whether an entry with the same outpoint is already in the list.
pub open spec fn has_outpoint(s: Seq<UtxoEntry>, o: OutPoint) -> bool {
    exists|k: int| 0 <= k < s.len() && outpoint_view((#[trigger] s[k]).outpoint) == outpoint_view(o)
}

/// Adding an entry: nothing changes when its outpoint is already there.
pub open spec fn insert_entry(s: Seq<UtxoEntry>, e: UtxoEntry) -> Seq<UtxoEntry> {
    if has_outpoint(s, e.outpoint) {
        s
    } else {
        s.push(e)
    }
}

/// Adding a batch of entries, in order.
pub open spec fn insert_all(s: Seq<UtxoEntry>, b: Seq<UtxoEntry>) -> Seq<UtxoEntry>
    decreases b.len(),
{
    if b.len() == 0 {
        s
    } else {
        insert_entry(insert_all(s, b.drop_last()), b.last())
    }
}

/// No two entries share an outpoint.
pub open spec fn unique_outpoints(s: Seq<UtxoEntry>) -> bool {
    forall|i: int, j: int|
        0 <= i < j < s.len() ==> outpoint_view((#[trigger] s[i]).outpoint) != outpoint_view(
            (#[trigger] s[j]).outpoint,
        )
}

/// Unspent outputs, at most one per outpoint, in the order found.
#[derive(Clone, Debug, PartialEq, Eq)]
pub struct UtxoSet {
    entries: Vec<UtxoEntry>,
}

impl View for UtxoSet {
    type V = Seq<UtxoEntry>;

    closed spec fn view(&self) -> Seq<UtxoEntry> {
        self.entries@
    }
}

impl UtxoSet {
    pub open spec fn wf(&self) -> bool {
        unique_outpoints(self@)
    }

    pub fn new() -> (r: UtxoSet)
        ensures
            r@ == Seq::<UtxoEntry>::empty(),
            r.wf(),
    {
        UtxoSet { entries: Vec::new() }
    }

    pub fn len(&self) -> (r: usize)
        ensures
            r == self@.len(),
    {
        self.entries.len()
    }

    pub fn entries(&self) -> (r: &Vec<UtxoEntry>)
        ensures
            r@ == self@,
    {
        &self.entries
    }

    /// Whether an entry with this outpoint is in the set.
    pub fn contains(&self, o: &OutPoint) -> (r: bool)
        ensures
            r == has_outpoint(self@, *o),
    {
        let mut i: usize = 0;
        while i < self.entries.len()
            invariant
                i <= self@.len(),
                forall|k: int|
                    0 <= k < i ==> outpoint_view((#[trigger] self@[k]).outpoint) != outpoint_view(*o),
            decreases self@.len() - i,
        {
            if self.entries[i].outpoint.same_as(o) {
                return true;
            }
            i = i + 1;
        }
        false
    }

    /// Adds an entry unless its outpoint is already there; says whether it
    /// was added.
    pub fn insert(&mut self, e: UtxoEntry) -> (r: bool)
        requires
            old(self).wf(),
        ensures
            final(self)@ == insert_entry(old(self)@, e),
            r == !has_outpoint(old(self)@, e.outpoint),
            final(self).wf(),
    {
        if self.contains(&e.outpoint) {
            return false;
        }
        self.entries.push(e);
        proof {
            let s = self@;
            assert forall|i: int, j: int| 0 <= i < j < s.len() implies outpoint_view(
                (#[trigger] s[i]).outpoint,
            ) != outpoint_view((#[trigger] s[j]).outpoint) by {
                if j == s.len() - 1 {
                    assert(s[i] == old(self)@[i]);
                } else {
                    assert(s[i] == old(self)@[i]);
                    assert(s[j] == old(self)@[j]);
                }
            }
        }
        true
    }

    /// Adds a batch of entries, in order.
    pub fn insert_batch(&mut self, batch: &Vec<UtxoEntry>)
        requires
            old(self).wf(),
        ensures
            final(self)@ == insert_all(old(self)@, batch@),
            final(self).wf(),
    {
        let mut i: usize = 0;
        assert(batch@.subrange(0, 0) =~= Seq::<UtxoEntry>::empty());
        while i < batch.len()
            invariant
                i <= batch@.len(),
                self.wf(),
                self@ == insert_all(old(self)@, batch@.subrange(0, i as int)),
            decreases batch@.len() - i,
        {
            self.insert(batch[i]);
            proof {
                let now = batch@.subrange(0, i + 1);
                assert(now.drop_last() =~= batch@.subrange(0, i as int));
                assert(now.last() == batch@[i as int]);
            }
            i = i + 1;
        }
        assert(batch@.subrange(0, batch@.len() as int) =~= batch@);
    }
}

proof fn lemma_insert_all_keeps(s: Seq<UtxoEntry>, b: Seq<UtxoEntry>, o: OutPoint)
    ensures
        has_outpoint(s, o) ==> has_outpoint(insert_all(s, b), o),
        (exists|k: int| 0 <= k < b.len() && outpoint_view((#[trigger] b[k]).outpoint) == outpoint_view(o))
            ==> has_outpoint(insert_all(s, b), o),
    decreases b.len(),
{
    if b.len() > 0 {
        let p = b.drop_last();
        lemma_insert_all_keeps(s, p, o);
        let t = insert_all(s, p);
        if has_outpoint(t, o) {
            let k = choose|k: int| 0 <= k < t.len() && outpoint_view((#[trigger] t[k]).outpoint) == outpoint_view(o);
            if !has_outpoint(t, b.last().outpoint) {
                assert(t.push(b.last())[k] == t[k]);
            }
        }
        if exists|k: int| 0 <= k < b.len() && outpoint_view((#[trigger] b[k]).outpoint) == outpoint_view(o) {
            let k = choose|k: int| 0 <= k < b.len() && outpoint_view((#[trigger] b[k]).outpoint) == outpoint_view(o);
            if k < b.len() - 1 {
                assert(p[k] == b[k]);
            } else if !has_outpoint(t, b.last().outpoint) {
                let u = t.push(b.last());
                assert(u[t.len() as int] == b.last());
            }
        }
    }
}

proof fn lemma_insert_all_present(s: Seq<UtxoEntry>, b: Seq<UtxoEntry>)
    requires
        forall|k: int| 0 <= k < b.len() ==> has_outpoint(s, (#[trigger] b[k]).outpoint),
    ensures
        insert_all(s, b) == s,
    decreases b.len(),
{
    if b.len() > 0 {
        let p = b.drop_last();
        assert forall|k: int| 0 <= k < p.len() implies has_outpoint(s, (#[trigger] p[k]).outpoint) by {
            assert(p[k] == b[k]);
        }
        lemma_insert_all_present(s, p);
        assert(has_outpoint(s, b[b.len() - 1].outpoint));
    }
}

/// Adding a batch and then a second batch is adding both, one after the
/// other.
pub proof fn lemma_insert_all_concat(s: Seq<UtxoEntry>, a: Seq<UtxoEntry>, b: Seq<UtxoEntry>)
    ensures
        insert_all(insert_all(s, a), b) == insert_all(s, a + b),
    decreases b.len(),
{
    if b.len() == 0 {
        assert(a + b =~= a);
    } else {
        lemma_insert_all_concat(s, a, b.drop_last());
        assert((a + b).drop_last() =~= a + b.drop_last());
        assert((a + b).last() == b.last());
    }
}

/// Resolution is idempotent: adding the same outputs a second time leaves
/// the set as it was after the first time, so its size is unchanged and no
/// outpoint appears twice.
pub proof fn lemma_resolution_idempotent(s: Seq<UtxoEntry>, b: Seq<UtxoEntry>)
    ensures
        insert_all(insert_all(s, b), b) == insert_all(s, b),
        insert_all(insert_all(s, b), b).len() == insert_all(s, b).len(),
{
    let t = insert_all(s, b);
    assert forall|k: int| 0 <= k < b.len() implies has_outpoint(t, (#[trigger] b[k]).outpoint) by {
        lemma_insert_all_keeps(s, b, b[k].outpoint);
    }
    lemma_insert_all_present(t, b);
}

/// One script to look up: the derivation index and encoding it belongs to.
#[derive(Clone, Debug, PartialEq, Eq)]
pub struct Query {
    pub index: u32,
    pub variant: ScriptVariant,
    pub script: Vec<u8>,
}

/// An output paying a queried script, as the resolver reports it.
#[derive(Clone, Copy, Debug, PartialEq, Eq)]
pub struct FoundOutput {
    pub outpoint: OutPoint,
    pub value: u64,
}

/// Entries for outputs found by a query.
pub open spec fn entries_of(q: Query, found: Seq<FoundOutput>) -> Seq<UtxoEntry> {
    found.map_values(
        |f: FoundOutput| UtxoEntry { outpoint: f.outpoint, value: f.value, index: q.index, variant: q.variant },
    )
}

/// One pass of resolution over an index range: index by index, it generates
/// the descriptor's scripts and hands them out as queries one at a time;
/// what the resolver finds goes into the set of outputs.
pub struct Resolution {
    account: DescriptorAccount,
    cursor: IndexIter,
    index: u32,
    batch: Vec<ScriptTemplate>,
    pos: usize,
    utxos: UtxoSet,
}

impl Resolution {
    pub closed spec fn wf(&self) -> bool {
        &&& self.cursor.wf()
        &&& self.pos <= self.batch@.len()
        &&& self.utxos.wf()
        &&& self.account.template.wf()
    }

    /// The descriptor being resolved.
    pub closed spec fn account(&self) -> DescriptorAccount {
        self.account
    }

    /// Indices whose scripts are still to be generated.
    pub closed spec fn indices_left(&self) -> Seq<u32> {
        self.cursor.remaining()
    }

    /// Index of the scripts being handed out.
    pub closed spec fn current_index(&self) -> u32 {
        self.index
    }

    /// Scripts of the current index not handed out yet.
    pub closed spec fn pending(&self) -> Seq<(ScriptVariant, Seq<u8>)> {
        templates_view(self.batch@).subrange(self.pos as int, self.batch@.len() as int)
    }

    /// Outputs found so far.
    pub closed spec fn found(&self) -> Seq<UtxoEntry> {
        self.utxos@
    }

    /// A pass over `range` for `account`; hand-written scripts cannot be
    /// looked up.
    pub fn new(account: DescriptorAccount, range: &IndexRangeSet) -> (r: Result<
        Resolution,
        DescriptorError,
    >)
        requires
            range.wf(),
            account.template.wf(),
        ensures
            match r {
                Ok(res) => !(account.template is Scripted) && res.wf() && res.account() == account
                    && res.indices_left() == indices(range@) && res.pending().len() == 0
                    && res.found().len() == 0,
                Err(e) => account.template is Scripted && e == DescriptorError::NotYetSupported(
                    Unsupported::CustomScriptLookup,
                ),
            },
    {
        Resolution::with_found(account, range, UtxoSet::new())
    }

    /// A pass over `range` for `account` that adds to outputs already
    /// found; hand-written scripts cannot be looked up.
    pub fn with_found(account: DescriptorAccount, range: &IndexRangeSet, found: UtxoSet) -> (r: Result<
        Resolution,
        DescriptorError,
    >)
        requires
            range.wf(),
            account.template.wf(),
            found.wf(),
        ensures
            match r {
                Ok(res) => !(account.template is Scripted) && res.wf() && res.account() == account
                    && res.indices_left() == indices(range@) && res.pending().len() == 0
                    && res.found() == found@,
                Err(e) => account.template is Scripted && e == DescriptorError::NotYetSupported(
                    Unsupported::CustomScriptLookup,
                ),
            },
    {
        if let Template::Scripted(_) = &account.template {
            return Err(DescriptorError::NotYetSupported(Unsupported::CustomScriptLookup));
        }
        let res = Resolution {
            account,
            cursor: range.iter(),
            index: 0,
            batch: Vec::new(),
            pos: 0,
            utxos: found,
        };
        assert(res.pending() =~= Seq::<(ScriptVariant, Seq<u8>)>::empty());
        Ok(res)
    }

    /// The next script to look up for the current index, if any is left.
    pub fn next_query(&mut self) -> (r: Option<Query>)
        requires
            old(self).wf(),
        ensures
            final(self).wf(),
            final(self).account() == old(self).account(),
            final(self).indices_left() == old(self).indices_left(),
            final(self).current_index() == old(self).current_index(),
            final(self).found() == old(self).found(),
            old(self).pending().len() == 0 ==> r is None && final(self).pending() == old(self).pending(),
            old(self).pending().len() > 0 ==> (r matches Some(q) && q.index == old(self).current_index()
                && (q.variant, q.script@) == old(self).pending()[0] && final(self).pending() == old(
                self,
            ).pending().drop_first()),
    {
        if self.pos >= self.batch.len() {
            return None;
        }
        let t = &self.batch[self.pos];
        let q = Query { index: self.index, variant: t.variant, script: crate::keys::copy_bytes(&t.script) };
        let ghost before = self.pending();
        self.pos = self.pos + 1;
        proof {
            assert(before[0] == templates_view(self.batch@)[self.pos - 1]);
            assert(self.pending() =~= before.drop_first());
        }
        Some(q)
    }

    /// Moves to the next index of the range and generates its scripts;
    /// `false` once every index has been visited.
    pub fn advance(&mut self) -> (r: Result<bool, DescriptorError>)
        requires
            old(self).wf(),
        ensures
            final(self).wf(),
            final(self).account() == old(self).account(),
            final(self).found() == old(self).found(),
            old(self).indices_left().len() == 0 ==> r == Ok::<bool, DescriptorError>(false)
                && final(self).indices_left() == old(self).indices_left() && final(self).pending()
                == old(self).pending() && final(self).current_index() == old(self).current_index(),
            old(self).indices_left().len() > 0 ==> final(self).indices_left() == old(
                self,
            ).indices_left().drop_first() && match generated(
                old(self).account(),
                old(self).indices_left()[0],
            ) {
                Ok(ss) => r == Ok::<bool, DescriptorError>(true) && final(self).pending() == ss
                    && final(self).current_index() == old(self).indices_left()[0],
                Err(e) => r == Err::<bool, DescriptorError>(e) && final(self).pending() == old(
                    self,
                ).pending() && final(self).current_index() == old(self).current_index(),
            },
    {
        match self.cursor.next() {
            None => Ok(false),
            Some(i) => {
                let scripts = self.account.generate_at(i)?;
                self.batch = scripts;
                self.pos = 0;
                self.index = i;
                assert(self.pending() =~= templates_view(self.batch@));
                Ok(true)
            },
        }
    }

    /// Records what the resolver found for a query.
    pub fn record(&mut self, q: &Query, found: &Vec<FoundOutput>)
        requires
            old(self).wf(),
        ensures
            final(self).wf(),
            final(self).account() == old(self).account(),
            final(self).indices_left() == old(self).indices_left(),
            final(self).current_index() == old(self).current_index(),
            final(self).pending() == old(self).pending(),
            final(self).found() == insert_all(old(self).found(), entries_of(*q, found@)),
    {
        let mut entries: Vec<UtxoEntry> = Vec::new();
        let mut i: usize = 0;
        while i < found.len()
            invariant
                i <= found@.len(),
                entries@ == entries_of(*q, found@.subrange(0, i as int)),
            decreases found@.len() - i,
        {
            let f = found[i];
            entries.push(UtxoEntry { outpoint: f.outpoint, value: f.value, index: q.index, variant: q.variant });
            i = i + 1;
            assert(entries@ =~= entries_of(*q, found@.subrange(0, i as int)));
        }
        assert(found@.subrange(0, found@.len() as int) =~= found@);
        self.utxos.insert_batch(&entries);
    }

    /// The outputs found so far.
    pub fn utxos(&self) -> (r: &UtxoSet)
        ensures
            r@ == self.found(),
    {
        &self.utxos
    }

    /// Ends the pass, keeping the outputs found.
    pub fn into_utxos(self) -> (r: UtxoSet)
        requires
            self.wf(),
        ensures
            r@ == self.found(),
            r.wf(),
    {
        self.utxos
    }
}

} // verus!
