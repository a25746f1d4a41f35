//! Epochs: height intervals, each with the rules in force in it, and their
//! resolution by block height through any handle onto the chain.
use vstd::prelude::*;

verus! {

/// The greatest height that an epoch table covers.
pub const STACKS_EPOCH_MAX: u64 = 0x7fff_ffff_ffff_ffff;

pub const PEER_VERSION_EPOCH_1_0: u8 = 0x00;

pub const PEER_VERSION_EPOCH_2_0: u8 = 0x00;

pub const PEER_VERSION_EPOCH_2_05: u8 = 0x05;

#[derive(PartialEq, Eq, Structural, Clone, Copy, Debug)]
pub enum StacksEpochId {
    Epoch10,
    Epoch20,
    Epoch2_05,
}

/// A budget of execution resources.
#[derive(PartialEq, Eq, Structural, Clone, Copy, Debug)]
pub struct ExecutionCost {
    pub write_length: u64,
    pub write_count: u64,
    pub read_length: u64,
    pub read_count: u64,
    pub runtime: u64,
}

impl ExecutionCost {
    /// The budget with no limit on any resource.
    pub fn max_value() -> (r: ExecutionCost)
        ensures
            r.write_length == u64::MAX,
            r.write_count == u64::MAX,
            r.read_length == u64::MAX,
            r.read_count == u64::MAX,
            r.runtime == u64::MAX,
    {
        ExecutionCost {
            write_length: u64::MAX,
            write_count: u64::MAX,
            read_length: u64::MAX,
            read_count: u64::MAX,
            runtime: u64::MAX,
        }
    }
}

/// The heights `[start_height, end_height)` and the rules in force there.
#[derive(PartialEq, Eq, Structural, Clone, Copy, Debug)]
pub struct StacksEpoch {
    pub epoch_id: StacksEpochId,
    pub start_height: u64,
    pub end_height: u64,
    pub block_limit: ExecutionCost,
    pub network_epoch: u8,
}

pub open spec fn covers(e: StacksEpoch, h: int) -> bool {
    e.start_height <= h < e.end_height
}

/// A table starts at height zero, runs without gap or overlap, and ends at
/// the greatest height.
pub open spec fn valid_epochs(s: Seq<StacksEpoch>) -> bool {
    &&& s.len() > 0
    &&& s[0].start_height == 0
    &&& s.last().end_height == STACKS_EPOCH_MAX
    &&& forall|i: int| 0 <= i < s.len() ==> #[trigger] s[i].start_height < s[i].end_height
    &&& forall|i: int| 0 <= i < s.len() - 1 ==> #[trigger] s[i].end_height == s[i + 1].start_height
}

/// The first epoch of `s` that covers height `h`.
pub open spec fn epoch_at(s: Seq<StacksEpoch>, h: int) -> Option<StacksEpoch>
    decreases s.len(),
{
    if s.len() == 0 {
        None
    } else if covers(s[0], h) {
        Some(s[0])
    } else {
        epoch_at(s.drop_first(), h)
    }
}

proof fn lemma_epochs_ordered(s: Seq<StacksEpoch>, i: int, j: int)
    requires
        valid_epochs(s),
        0 <= i < j < s.len(),
    ensures
        s[i].end_height <= s[j].start_height,
    decreases j - i,
{
    if j > i + 1 {
        lemma_epochs_ordered(s, i, j - 1);
        assert(s[j - 1].start_height < s[j - 1].end_height);
        assert(s[j - 1].end_height == s[j].start_height);
    } else {
        assert(s[i].end_height == s[i + 1].start_height);
    }
}

proof fn lemma_epoch_exists(s: Seq<StacksEpoch>, h: int, k: int)
    requires
        valid_epochs(s),
        0 <= h,
        0 <= k < s.len(),
        h < s[k].end_height,
    ensures
        exists|i: int| 0 <= i <= k && covers(#[trigger] s[i], h),
    decreases k,
{
    if h >= s[k].start_height {
        assert(covers(s[k], h));
    } else {
        assert(k > 0);
        assert(s[k - 1].end_height == s[k].start_height);
        lemma_epoch_exists(s, h, k - 1);
        let i = choose|i: int| 0 <= i <= k - 1 && covers(#[trigger] s[i], h);
        assert(0 <= i <= k && covers(s[i], h));
    }
}

proof fn lemma_epoch_at_first(s: Seq<StacksEpoch>, h: int)
    ensures
        epoch_at(s, h) matches Some(e) ==> exists|i: int| 0 <= i < s.len() && s[i] == e && covers(e, h),
        epoch_at(s, h) is None ==> forall|i: int| 0 <= i < s.len() ==> !covers(#[trigger] s[i], h),
    decreases s.len(),
{
    if s.len() > 0 && !covers(s[0], h) {
        let t = s.drop_first();
        lemma_epoch_at_first(t, h);
        if epoch_at(t, h) is Some {
            let i = choose|i: int| 0 <= i < t.len() && t[i] == epoch_at(t, h)->0 && covers(t[i], h);
            assert(s[i + 1] == t[i]);
        } else {
            assert forall|i: int| 0 <= i < s.len() implies !covers(#[trigger] s[i], h) by {
                if i > 0 {
                    assert(s[i] == t[i - 1]);
                }
            }
        }
    }
}

/// Every height below the greatest lies in exactly one epoch of a valid
/// table, and resolution gives that epoch.
pub proof fn lemma_exactly_one_epoch(s: Seq<StacksEpoch>, h: int)
    requires
        valid_epochs(s),
        0 <= h < STACKS_EPOCH_MAX,
    ensures
        exists|i: int| 0 <= i < s.len() && covers(#[trigger] s[i], h),
        forall|i: int, j: int|
            0 <= i < s.len() && 0 <= j < s.len() && covers(#[trigger] s[i], h) && covers(#[trigger] s[j], h)
                ==> i == j,
        epoch_at(s, h) matches Some(e) && covers(e, h),
{
    lemma_epoch_exists(s, h, s.len() - 1);
    assert forall|i: int, j: int|
        0 <= i < s.len() && 0 <= j < s.len() && covers(#[trigger] s[i], h) && covers(#[trigger] s[j], h)
            implies i == j by {
        if i < j {
            lemma_epochs_ordered(s, i, j);
        } else if j < i {
            lemma_epochs_ordered(s, j, i);
        }
    }
    lemma_epoch_at_first(s, h);
}

/// A validated table of epochs.
pub struct EpochTable {
    epochs: Vec<StacksEpoch>,
}

impl View for EpochTable {
    type V = Seq<StacksEpoch>;

    closed spec fn view(&self) -> Seq<StacksEpoch> {
        self.epochs@
    }
}

fn copy_epochs(v: &Vec<StacksEpoch>) -> (r: Vec<StacksEpoch>)
    ensures
        r@ == v@,
{
    let mut r: Vec<StacksEpoch> = Vec::new();
    let mut i: usize = 0;
    while i < v.len()
        invariant
            i <= v.len(),
            r@ == v@.take(i as int),
        decreases v.len() - i,
    {
        r.push(v[i]);
        i = i + 1;
        assert(r@ =~= v@.take(i as int));
    }
    assert(r@ =~= v@);
    r
}

impl EpochTable {
    pub closed spec fn wf(&self) -> bool {
        valid_epochs(self.epochs@)
    }

    /// The table of `epochs`, if they start at zero, run without gap or
    /// overlap and end at the greatest height.
    pub fn new(epochs: Vec<StacksEpoch>) -> (r: Option<EpochTable>)
        ensures
            r is Some == valid_epochs(epochs@),
            r matches Some(t) ==> t@ == epochs@ && t.wf(),
    {
        let n = epochs.len();
        if n == 0 || epochs[0].start_height != 0 || epochs[n - 1].end_height != STACKS_EPOCH_MAX {
            return None;
        }
        let mut i: usize = 0;
        while i < n
            invariant
                n == epochs.len(),
                i <= n,
                forall|j: int| 0 <= j < i ==> #[trigger] epochs@[j].start_height < epochs@[j].end_height,
                forall|j: int| 0 <= j < i && j < n - 1 ==> #[trigger] epochs@[j].end_height == epochs@[j + 1].start_height,
            decreases n - i,
        {
            if epochs[i].start_height >= epochs[i].end_height {
                return None;
            }
            if i + 1 < n && epochs[i].end_height != epochs[i + 1].start_height {
                return None;
            }
            i = i + 1;
        }
        Some(EpochTable { epochs })
    }

    pub fn duplicate(&self) -> (r: EpochTable)
        ensures
            r@ == self@,
            r.wf() == self.wf(),
    {
        EpochTable { epochs: copy_epochs(&self.epochs) }
    }

    /// The epoch that governs height `height`.
    pub fn epoch_at(&self, height: u32) -> (r: Option<StacksEpoch>)
        requires
            self.wf(),
        ensures
            r == epoch_at(self@, height as int),
            r is Some,
    {
        proof {
            lemma_exactly_one_epoch(self@, height as int);
        }
        scan_epochs(&self.epochs, height)
    }
}

/// What every handle onto the chain's history answers alike.
pub trait BurnStateDB {
    /// The epochs of the chain that the handle reads.
    spec fn epochs(&self) -> Seq<StacksEpoch>;

    /// The epoch that governs height `height`.
    fn get_stacks_epoch(&self, height: u32) -> (r: Option<StacksEpoch>)
        ensures
            r == epoch_at(self.epochs(), height as int),
    ;
}

/// The chain's history of snapshots, with its epoch table.
pub struct SortitionDB {
    table: EpochTable,
    tip_height: u64,
}

impl SortitionDB {
    pub closed spec fn epochs(&self) -> Seq<StacksEpoch> {
        self.table@
    }

    pub closed spec fn tip(&self) -> u64 {
        self.tip_height
    }

    pub closed spec fn wf(&self) -> bool {
        self.table.wf()
    }

    /// A chain at height `first_block_height` whose epochs are `epochs`; none
    /// if the epochs do not form a valid table.
    pub fn connect(first_block_height: u64, epochs: Vec<StacksEpoch>) -> (r: Option<SortitionDB>)
        ensures
            r is Some == valid_epochs(epochs@),
            r matches Some(db) ==> db.wf() && db.epochs() == epochs@ && db.tip() == first_block_height,
    {
        match EpochTable::new(epochs) {
            Some(table) => Some(SortitionDB { table, tip_height: first_block_height }),
            None => None,
        }
    }

    /// Height of the canonical tip.
    pub fn tip_height(&self) -> (r: u64)
        ensures
            r == self.tip(),
    {
        self.tip_height
    }

    /// Appends a snapshot on the tip and returns the new tip's height.
    pub fn append_snapshot(&mut self) -> (r: u64)
        requires
            old(self).tip() < u64::MAX,
        ensures
            r == old(self).tip() + 1,
            final(self).tip() == r,
            final(self).epochs() == old(self).epochs(),
            final(self).wf() == old(self).wf(),
    {
        self.tip_height = self.tip_height + 1;
        self.tip_height
    }

    /// A read-only snapshot handle on the chain.
    pub fn index_conn(&self) -> (r: SortitionHandleConn)
        ensures
            r.epochs() == self.epochs(),
            r.wf() == self.wf(),
    {
        SortitionHandleConn { table: self.table.duplicate(), tip_height: self.tip_height }
    }

    /// A write transaction on the chain, open at the current tip.
    pub fn tx_handle_begin(&self) -> (r: SortitionHandleTx)
        ensures
            r.epochs() == self.epochs(),
            r.wf() == self.wf(),
            r.tip() == self.tip(),
            r.pending_count() == 0,
    {
        SortitionHandleTx { table: self.table.duplicate(), tip_height: self.tip_height, pending: 0 }
    }
}

/// A read-only view of already committed history.
pub struct SortitionHandleConn {
    table: EpochTable,
    tip_height: u64,
}

impl SortitionHandleConn {
    pub closed spec fn wf(&self) -> bool {
        self.table.wf()
    }
}

impl BurnStateDB for SortitionHandleConn {
    closed spec fn epochs(&self) -> Seq<StacksEpoch> {
        self.table@
    }

    fn get_stacks_epoch(&self, height: u32) -> (r: Option<StacksEpoch>) {
        scan_epochs(&self.table.epochs, height)
    }
}

/// An in-flight write transaction, with snapshots not yet committed.
pub struct SortitionHandleTx {
    table: EpochTable,
    tip_height: u64,
    pending: u64,
}

impl SortitionHandleTx {
    pub closed spec fn wf(&self) -> bool {
        self.table.wf()
    }

    pub closed spec fn tip(&self) -> u64 {
        self.tip_height
    }

    pub closed spec fn pending_count(&self) -> u64 {
        self.pending
    }

    /// Number of snapshots appended in this transaction.
    pub fn pending_snapshots(&self) -> (r: u64)
        ensures
            r == self.pending_count(),
    {
        self.pending
    }

    /// Appends a snapshot inside the transaction; the epochs that the handle
    /// resolves stay as they were.
    pub fn append_snapshot(&mut self) -> (r: u64)
        requires
            old(self).tip() + old(self).pending_count() < u64::MAX,
        ensures
            final(self).pending_count() == old(self).pending_count() + 1,
            final(self).tip() == old(self).tip(),
            r == old(self).tip() + final(self).pending_count(),
            final(self).epochs() == old(self).epochs(),
            final(self).wf() == old(self).wf(),
    {
        self.pending = self.pending + 1;
        self.tip_height + self.pending
    }
}

impl BurnStateDB for SortitionHandleTx {
    closed spec fn epochs(&self) -> Seq<StacksEpoch> {
        self.table@
    }

    fn get_stacks_epoch(&self, height: u32) -> (r: Option<StacksEpoch>) {
        scan_epochs(&self.table.epochs, height)
    }
}

/// The first epoch among `epochs` that covers `height`.
fn scan_epochs(epochs: &Vec<StacksEpoch>, height: u32) -> (r: Option<StacksEpoch>)
    ensures
        r == epoch_at(epochs@, height as int),
{
    let ghost s = epochs@;
    let mut i: usize = 0;
    assert(s.skip(0) =~= s);
    while i < epochs.len()
        invariant
            i <= epochs.len(),
            s == epochs@,
            epoch_at(s, height as int) == epoch_at(s.skip(i as int), height as int),
        decreases epochs.len() - i,
    {
        assert(s.skip(i as int)[0] == s[i as int]);
        assert(s.skip(i as int).drop_first() =~= s.skip(i + 1));
        let e = epochs[i];
        if e.start_height <= height as u64 && (height as u64) < e.end_height {
            return Some(e);
        }
        i = i + 1;
    }
    None
}

/// A snapshot handle and a write transaction over the same chain resolve
/// every height to the same epoch, and over a valid table that epoch is
/// always there.
pub proof fn lemma_cross_handle(db: SortitionDB, conn: SortitionHandleConn, tx: SortitionHandleTx, height: u32)
    requires
        db.wf(),
        conn.epochs() == db.epochs(),
        tx.epochs() == db.epochs(),
    ensures
        epoch_at(conn.epochs(), height as int) == epoch_at(tx.epochs(), height as int),
        epoch_at(conn.epochs(), height as int) is Some,
{
    lemma_exactly_one_epoch(db.epochs(), height as int);
}

} // verus!
