//! The contract metadata database: one cached analysis per contract, written
//! at most once, over the rollback store.
use crate::codec::{analysis_bytes, decode_analysis, lemma_round_trip, AnalysisModel, Codec};
use crate::rollback::{latest, BackingStore, MetadataKey, RollbackWrapper};
use crate::types::{
    ClarityName, ContractAnalysis, FunctionEntry, FunctionType, MapEntry, QualifiedContractIdentifier,
    TraitDefinition, TraitIdentifier, TypeSignature,
};
use vstd::prelude::*;
use vstd::string::StringSliceAdditionalSpecFns;

verus! {

/// Why an analysis query or write did not go through.
#[derive(Debug)]
pub enum CheckErrors {
    ContractAlreadyExists(QualifiedContractIdentifier),
    NoSuchContract(QualifiedContractIdentifier),
    NoSuchMap(ClarityName),
}

pub type CheckResult<T> = Result<T, CheckErrors>;

/// The metadata key under which a contract's analysis is stored.
pub open spec fn analysis_key() -> Seq<u8> {
    seq![97u8, 110u8, 97u8, 108u8, 121u8, 115u8, 105u8, 115u8]
}

fn analysis_key_bytes() -> (r: Vec<u8>)
    ensures
        r@ == analysis_key(),
{
    let r: Vec<u8> = vec![97u8, 110u8, 97u8, 108u8, 121u8, 115u8, 105u8, 115u8];
    assert(r@ =~= analysis_key());
    r
}

/// The metadata key under which a contract's hash is registered.
pub open spec fn contract_hash_key() -> Seq<u8> {
    seq![104u8, 97u8, 115u8, 104u8]
}

fn contract_hash_key_bytes() -> (r: Vec<u8>)
    ensures
        r@ == contract_hash_key(),
{
    let r: Vec<u8> = vec![104u8, 97u8, 115u8, 104u8];
    assert(r@ =~= contract_hash_key());
    r
}

fn zero_bytes(n: usize) -> (r: Vec<u8>)
    ensures
        r@ == Seq::new(n as nat, |i: int| 0u8),
{
    let mut r: Vec<u8> = Vec::new();
    while r.len() < n
        invariant
            r.len() <= n,
            r@ == Seq::new(r.len() as nat, |i: int| 0u8),
        decreases n - r.len(),
    {
        r.push(0u8);
        assert(r@ =~= Seq::new(r.len() as nat, |i: int| 0u8));
    }
    r
}

/// Every entry under the analysis key holds the encoding of an analysis.
pub open spec fn log_wf(log: Seq<(MetadataKey, Seq<u8>)>) -> bool {
    forall|i: int|
        #![trigger log[i]]
        0 <= i < log.len() && log[i].0.1 == analysis_key() ==> decode_analysis(log[i].1) is Some
}

proof fn lemma_latest_decodes(log: Seq<(MetadataKey, Seq<u8>)>, c: (Seq<u8>, Seq<u8>))
    requires
        log_wf(log),
    ensures
        latest(log, (c, analysis_key())) matches Some(b) ==> decode_analysis(b) is Some,
    decreases log.len(),
{
    if log.len() > 0 {
        assert(log.last() == log[log.len() - 1]);
        let rest = log.drop_last();
        assert forall|i: int| #![trigger rest[i]]
            0 <= i < rest.len() && rest[i].0.1 == analysis_key() implies decode_analysis(rest[i].1) is Some by {
            assert(rest[i] == log[i]);
        }
        lemma_latest_decodes(rest, c);
    }
}

/// The name's first entry in `s`, if any.
pub open spec fn find_by_name<V>(s: Seq<(Seq<u8>, V)>, name: Seq<u8>) -> Option<V>
    decreases s.len(),
{
    if s.len() == 0 {
        None
    } else if s[0].0 == name {
        Some(s[0].1)
    } else {
        find_by_name(s.drop_first(), name)
    }
}

pub open spec fn public_functions_of(m: AnalysisModel) -> Seq<<FunctionEntry as Codec>::M> {
    m.0
}

pub open spec fn read_only_functions_of(m: AnalysisModel) -> Seq<<FunctionEntry as Codec>::M> {
    m.1.0
}

pub open spec fn defined_traits_of(m: AnalysisModel) -> Seq<<TraitDefinition as Codec>::M> {
    m.1.1.0
}

pub open spec fn implemented_traits_of(m: AnalysisModel) -> Seq<<TraitIdentifier as Codec>::M> {
    m.1.1.1.0
}

pub open spec fn map_types_of(m: AnalysisModel) -> Seq<<MapEntry as Codec>::M> {
    m.1.1.1.1
}

/// No two entries of `s` share a name.
pub open spec fn names_unique<V>(s: Seq<(Seq<u8>, V)>) -> bool {
    forall|i: int, j: int| 0 <= i < j < s.len() ==> #[trigger] s[i].0 != #[trigger] s[j].0
}

/// An analysis names each function, trait, trait function and map once,
/// and lists each implemented trait once.
pub open spec fn analysis_wf(m: AnalysisModel) -> bool {
    &&& names_unique(public_functions_of(m))
    &&& names_unique(read_only_functions_of(m))
    &&& names_unique(defined_traits_of(m))
    &&& forall|k: int| 0 <= k < defined_traits_of(m).len() ==> names_unique(#[trigger] defined_traits_of(m)[k].1)
    &&& names_unique(map_types_of(m))
    &&& forall|i: int, j: int|
        0 <= i < j < implemented_traits_of(m).len() ==> #[trigger] implemented_traits_of(m)[i]
            != #[trigger] implemented_traits_of(m)[j]
}

/// The entries of a list that are looked up by name.
pub trait Named {
    spec fn name_view(&self) -> Seq<u8>;

    fn entry_name(&self) -> (r: &ClarityName)
        ensures
            r@ == self.name_view(),
    ;
}

impl Named for FunctionEntry {
    open spec fn name_view(&self) -> Seq<u8> {
        self.name@
    }

    fn entry_name(&self) -> (r: &ClarityName) {
        &self.name
    }
}

impl Named for TraitDefinition {
    open spec fn name_view(&self) -> Seq<u8> {
        self.name@
    }

    fn entry_name(&self) -> (r: &ClarityName) {
        &self.name
    }
}

impl Named for MapEntry {
    open spec fn name_view(&self) -> Seq<u8> {
        self.name@
    }

    fn entry_name(&self) -> (r: &ClarityName) {
        &self.name
    }
}

/// The first entry of `v` with the name, if any.
fn position_by_name<T: Named>(v: &Vec<T>, name: &ClarityName) -> (r: Option<usize>)
    ensures
        r matches Some(i) ==> i < v.len() && v@[i as int].name_view() == name@ && forall|j: int|
            0 <= j < i ==> #[trigger] v@[j].name_view() != name@,
        r is None ==> forall|j: int| 0 <= j < v.len() ==> #[trigger] v@[j].name_view() != name@,
{
    let mut i: usize = 0;
    while i < v.len()
        invariant
            i <= v.len(),
            forall|j: int| 0 <= j < i ==> #[trigger] v@[j].name_view() != name@,
        decreases v.len() - i,
    {
        if v[i].entry_name().same_as(name) {
            return Some(i);
        }
        i = i + 1;
    }
    None
}

/// `find_by_name` gives the entry at the first position of the name, and
/// nothing where the name does not occur.
pub proof fn lemma_find_by_name<V>(s: Seq<(Seq<u8>, V)>, name: Seq<u8>, i: int)
    requires
        0 <= i <= s.len(),
        forall|j: int| 0 <= j < i ==> #[trigger] s[j].0 != name,
    ensures
        i < s.len() && s[i].0 == name ==> find_by_name(s, name) == Some(s[i].1),
        i == s.len() ==> find_by_name(s, name) is None,
    decreases i,
{
    if s.len() > 0 && i > 0 {
        let t = s.drop_first();
        assert forall|j: int| 0 <= j < i - 1 implies #[trigger] t[j].0 != name by {
            assert(t[j] == s[j + 1]);
        }
        lemma_find_by_name(t, name, i - 1);
    }
}

/// The analysis cache of contracts, over a rollback store.
pub struct AnalysisDatabase {
    pub store: RollbackWrapper,
}

impl AnalysisDatabase {
    pub open spec fn wf(&self) -> bool {
        log_wf(self.store.log())
    }

    /// The bytes stored for contract `c`, if any.
    pub open spec fn stored(&self, c: (Seq<u8>, Seq<u8>)) -> Option<Seq<u8>> {
        self.store.lookup((c, analysis_key()))
    }

    pub open spec fn has(&self, c: (Seq<u8>, Seq<u8>)) -> bool {
        self.stored(c) is Some
    }

    /// The analysis cached for contract `c`, if any.
    pub open spec fn analysis(&self, c: (Seq<u8>, Seq<u8>)) -> Option<AnalysisModel> {
        match self.stored(c) {
            Some(b) => decode_analysis(b),
            None => None,
        }
    }

    pub fn new(store: BackingStore) -> (r: AnalysisDatabase)
        requires
            log_wf(store@),
        ensures
            r.wf(),
            r.store.log() == store@,
            r.store.depth() == 0,
    {
        AnalysisDatabase { store: RollbackWrapper::new(store) }
    }

    pub fn new_with_rollback_wrapper(store: RollbackWrapper) -> (r: AnalysisDatabase)
        requires
            log_wf(store.log()),
        ensures
            r.wf(),
            r.store == store,
    {
        AnalysisDatabase { store }
    }

    /// `d` is this database with one more frame opened on it, and nothing
    /// in that frame yet.
    pub open spec fn nested_in(&self, d: AnalysisDatabase) -> bool {
        &&& d.wf()
        &&& d.store.store@ == self.store.store@
        &&& d.store.frames_view() == self.store.frames_view().push(Seq::empty())
    }

    /// `after` is `before` with writes made in its top frame only: the
    /// store and every frame below the top are as they were.
    pub open spec fn writes_in_top_frame(before: AnalysisDatabase, after: AnalysisDatabase) -> bool {
        &&& after.wf()
        &&& after.store.depth() == before.store.depth()
        &&& after.store.store@ == before.store.store@
        &&& after.store.frames_view().drop_last() == before.store.frames_view().drop_last()
    }

    /// What a scoped execution of `f` from `before` gives: `f` ran once on
    /// `before` with a fresh frame opened on it, and its result `r` comes back
    /// unchanged; on `Ok` the frame is folded into the one below it (or into
    /// the store), on `Err` it is dropped and `before`'s state is restored.
    pub open spec fn scoped_outcome<T, E, F: FnOnce(AnalysisDatabase) -> (AnalysisDatabase, Result<T, E>)>(
        before: AnalysisDatabase,
        f: F,
        after: AnalysisDatabase,
        r: Result<T, E>,
    ) -> bool {
        exists|d_in: AnalysisDatabase, d_out: AnalysisDatabase|
            #![trigger f.ensures((d_in,), (d_out, r))]
            before.nested_in(d_in) && f.ensures((d_in,), (d_out, r)) && Self::writes_in_top_frame(d_in, d_out)
                && after.wf() && after.store.depth() == before.store.depth() && (r is Ok ==> after.store.log()
                == d_out.store.log() && (before.store.depth() > 0 ==> after.store.store@ == before.store.store@
                && after.store.frames_view().drop_last() == before.store.frames_view().drop_last())) && (r is Err
                ==> after.store.store@ == before.store.store@ && after.store.frames_view()
                == before.store.frames_view())
    }

    /// Runs the unit of work `f` inside a nested frame. `f` gets the database
    /// with the frame open and hands it back with its result: on `Ok` the
    /// frame is committed, on `Err` it is rolled back, and either way the
    /// result is returned as `f` gave it. `f` must leave the frames it was
    /// given balanced: it writes in the top frame only.
    pub fn execute<T, E, F>(self, f: F) -> (r: (AnalysisDatabase, Result<T, E>))
        where
            F: FnOnce(AnalysisDatabase) -> (AnalysisDatabase, Result<T, E>),
        requires
            self.wf(),
            forall|d: AnalysisDatabase| self.nested_in(d) ==> #[trigger] f.requires((d,)),
            forall|d: AnalysisDatabase, out: (AnalysisDatabase, Result<T, E>)|
                self.nested_in(d) && #[trigger] f.ensures((d,), out) ==> Self::writes_in_top_frame(d, out.0),
        ensures
            Self::scoped_outcome(self, f, r.0, r.1),
            r.1 is Err ==> r.0.store.log() == self.store.log(),
    {
        let ghost before_log = self.store.log();
        let mut db = self;
        db.begin();
        let ghost d_in = db;
        let (mut db, res) = f(db);
        let ghost d_out = db;
        if res.is_ok() {
            db.commit();
        } else {
            db.roll_back();
        }
        proof {
            assert(self.nested_in(d_in));
            assert(f.ensures((d_in,), (d_out, res)));
            assert(Self::writes_in_top_frame(d_in, d_out));
            assert(self.store.frames_view().push(Seq::empty()).drop_last() =~= self.store.frames_view());
            assert(d_out.store.frames_view().drop_last() == self.store.frames_view());
            assert(before_log == self.store.log());
        }
        (db, res)
    }

    /// Whether the `i`-th insert of `work` meets a contract that is already
    /// cached, here or earlier in `work`.
    pub open spec fn conflict_at(
        &self,
        work: Seq<(QualifiedContractIdentifier, ContractAnalysis)>,
        i: int,
    ) -> bool {
        self.has(work[i].0.key()) || exists|j: int| 0 <= j < i && work[j].0.key() == work[i].0.key()
    }

    /// What running the inserts of `work` as one unit does: all of them take
    /// effect, or, at the first conflict, none of them.
    pub open spec fn insert_all_outcome(
        before: AnalysisDatabase,
        after: AnalysisDatabase,
        work: Seq<(QualifiedContractIdentifier, ContractAnalysis)>,
        r: CheckResult<()>,
    ) -> bool {
        &&& after.wf()
        &&& after.store.depth() == before.store.depth()
        &&& r is Ok <==> forall|i: int| 0 <= i < work.len() ==> !before.conflict_at(work, i)
        &&& r is Ok ==> forall|i: int|
            0 <= i < work.len() ==> #[trigger] after.analysis(work[i].0.key()) == Some(work[i].1.model())
        &&& r is Ok ==> forall|d: (Seq<u8>, Seq<u8>)|
            (forall|i: int| 0 <= i < work.len() ==> work[i].0.key() != d) ==> #[trigger] after.stored(d)
                == before.stored(d)
        &&& r is Err ==> after.store.log() == before.store.log()
        &&& r is Err ==> (r matches Err(CheckErrors::ContractAlreadyExists(e)) && exists|i: int|
            0 <= i < work.len() && before.conflict_at(work, i) && e.key() == work[i].0.key() && forall|j: int|
                0 <= j < i ==> !#[trigger] before.conflict_at(work, j))
    }

    /// Runs the inserts of `work` in order inside a nested frame: the frame
    /// is committed if all of them succeed, and dropped at the first that
    /// fails, whose error is returned.
    pub fn insert_all(&mut self, work: &Vec<(QualifiedContractIdentifier, ContractAnalysis)>) -> (r: CheckResult<()>)
        requires
            old(self).wf(),
            forall|i: int| 0 <= i < work.len() ==> analysis_wf(#[trigger] work@[i].1.model()),
        ensures
            Self::insert_all_outcome(*old(self), *final(self), work@, r),
    {
        self.begin();
        let mut i: usize = 0;
        while i < work.len()
            invariant
                i <= work.len(),
                self.wf(),
                self.store.depth() == old(self).store.depth() + 1,
                self.store.store@ == old(self).store.store@,
                self.store.frames_view().drop_last() == old(self).store.frames_view(),
                forall|j: int| 0 <= j < work.len() ==> analysis_wf(#[trigger] work@[j].1.model()),
                forall|j: int| 0 <= j < i ==> !old(self).conflict_at(work@, j),
                forall|j: int|
                    0 <= j < i ==> #[trigger] self.analysis(work@[j].0.key()) == Some(work@[j].1.model()),
                forall|d: (Seq<u8>, Seq<u8>)|
                    (forall|j: int| 0 <= j < i ==> work@[j].0.key() != d) ==> #[trigger] self.stored(d)
                        == old(self).stored(d),
            decreases work.len() - i,
        {
            let ghost mid = *self;
            let ghost k = work@[i as int].0.key();
            let res = self.insert_contract(&work[i].0, &work[i].1);
            match res {
                Err(e) => {
                    proof {
                        if !(exists|j: int| 0 <= j < i && work@[j].0.key() == k) {
                            assert(mid.stored(k) == old(self).stored(k));
                        }
                        assert(old(self).conflict_at(work@, i as int));
                    }
                    self.roll_back();
                    proof {
                        let f = old(self).store.frames_view();
                        assert(self.store.frames_view() == f);
                        assert(self.store.log() == old(self).store.log());
                        assert(0 <= i < work@.len() && old(self).conflict_at(work@, i as int));
                        assert(forall|j: int| 0 <= j < i ==> !old(self).conflict_at(work@, j));
                        assert(!(forall|j: int| 0 <= j < work@.len() ==> !old(self).conflict_at(work@, j)));
                    }
                    return Err(e);
                },
                Ok(()) => {
                    proof {
                        if exists|j: int| 0 <= j < i && work@[j].0.key() == k {
                            let j = choose|j: int| 0 <= j < i && work@[j].0.key() == k;
                            assert(mid.analysis(work@[j].0.key()) == Some(work@[j].1.model()));
                        }
                        assert(!old(self).conflict_at(work@, i as int));
                        assert forall|j: int| 0 <= j < i + 1 implies #[trigger] self.analysis(work@[j].0.key())
                            == Some(work@[j].1.model()) by {
                            if j < i {
                                assert(mid.analysis(work@[j].0.key()) == Some(work@[j].1.model()));
                                assert(work@[j].0.key() != k);
                                assert(self.stored(work@[j].0.key()) == mid.stored(work@[j].0.key()));
                            }
                        }
                        assert forall|d: (Seq<u8>, Seq<u8>)|
                            (forall|j: int| 0 <= j < i + 1 ==> work@[j].0.key() != d) implies #[trigger] self.stored(d)
                                == old(self).stored(d) by {
                            assert(work@[i as int].0.key() != d);
                            assert(self.stored(d) == mid.stored(d));
                        }
                    }
                },
            }
            i = i + 1;
        }
        let ghost pre = *self;
        self.commit();
        proof {
            assert(self.store.log() == pre.store.log());
            assert forall|j: int| 0 <= j < work@.len() implies #[trigger] self.analysis(work@[j].0.key())
                == Some(work@[j].1.model()) by {
                assert(pre.analysis(work@[j].0.key()) == Some(work@[j].1.model()));
            }
            assert forall|d: (Seq<u8>, Seq<u8>)|
                (forall|j: int| 0 <= j < work@.len() ==> work@[j].0.key() != d) implies #[trigger] self.stored(d)
                    == old(self).stored(d) by {
                assert(pre.stored(d) == old(self).stored(d));
            }
        }
        Ok(())
    }

    /// Opens a nested frame.
    pub fn begin(&mut self)
        requires
            old(self).wf(),
        ensures
            final(self).wf(),
            final(self).store.store@ == old(self).store.store@,
            final(self).store.frames_view() == old(self).store.frames_view().push(Seq::empty()),
            final(self).store.log() == old(self).store.log(),
    {
        self.store.nest();
    }

    /// Folds the top frame into the one below it, or into the store.
    pub fn commit(&mut self)
        requires
            old(self).wf(),
            old(self).store.depth() > 0,
        ensures
            final(self).wf(),
            final(self).store.depth() == old(self).store.depth() - 1,
            final(self).store.log() == old(self).store.log(),
            old(self).store.depth() >= 2 ==> final(self).store.store@ == old(self).store.store@
                && final(self).store.frames_view().drop_last() == old(self).store.frames_view().drop_last().drop_last(),
    {
        self.store.commit();
    }

    /// Drops the top frame with all the writes made in it.
    pub fn roll_back(&mut self)
        requires
            old(self).wf(),
            old(self).store.depth() > 0,
        ensures
            final(self).wf(),
            final(self).store.store@ == old(self).store.store@,
            final(self).store.frames_view() == old(self).store.frames_view().drop_last(),
    {
        let ghost before = self.store.log();
        self.store.rollback();
        proof {
            let f = old(self).store.frames_view();
            assert(f =~= f.drop_last().push(f.last()));
            assert(before == old(self).store.store@ + (crate::rollback::concat_frames(f.drop_last())
                + f.last()));
            let now = self.store.log();
            assert forall|i: int| #![trigger now[i]]
                0 <= i < now.len() && now[i].0.1 == analysis_key() implies decode_analysis(now[i].1) is Some by {
                assert(now[i] == before[i]);
            }
        }
    }

    /// The metadata key under which analyses are kept.
    pub fn storage_key() -> (r: &'static str)
        ensures
            r@ == seq!['a', 'n', 'a', 'l', 'y', 's', 'i', 's'],
    {
        proof {
            reveal_strlit("analysis");
        }
        "analysis"
    }

    /// Registers an all-zero hash for the contract, as for a contract that is
    /// not published yet; no analysis is cached by it.
    pub fn test_insert_contract_hash(&mut self, contract_identifier: &QualifiedContractIdentifier)
        requires
            old(self).wf(),
        ensures
            final(self).wf(),
            final(self).store.depth() == old(self).store.depth(),
            final(self).store.log() == old(self).store.log().push(
                ((contract_identifier.key(), contract_hash_key()), Seq::new(32, |i: int| 0u8)),
            ),
            forall|c: (Seq<u8>, Seq<u8>)| #[trigger] final(self).stored(c) == old(self).stored(c),
    {
        let key = contract_hash_key_bytes();
        let hash = zero_bytes(32);
        let ghost before = self.store.log();
        self.store.insert_metadata(contract_identifier, &key, &hash);
        proof {
            let now = self.store.log();
            assert(contract_hash_key().len() != analysis_key().len());
            assert(now.drop_last() =~= before);
            assert forall|c: (Seq<u8>, Seq<u8>)| #[trigger] self.stored(c) == old(self).stored(c) by {
                assert(now.last().0 != (c, analysis_key()));
            }
            assert forall|i: int| #![trigger now[i]]
                0 <= i < now.len() && now[i].0.1 == analysis_key() implies decode_analysis(now[i].1) is Some by {
                if i < before.len() {
                    assert(now[i] == before[i]);
                }
            }
        }
    }

    /// Whether an analysis is cached for the contract.
    pub fn has_contract(&mut self, contract_identifier: &QualifiedContractIdentifier) -> (r: bool)
        ensures
            *final(self) == *old(self),
            r == old(self).has(contract_identifier.key()),
    {
        let key = analysis_key_bytes();
        self.store.has_metadata_entry(contract_identifier, &key)
    }

    /// The analysis cached for the contract, if there is one.
    pub fn load_contract(&mut self, contract_identifier: &QualifiedContractIdentifier) -> (r: Option<ContractAnalysis>)
        requires
            old(self).wf(),
        ensures
            *final(self) == *old(self),
            r is Some == old(self).has(contract_identifier.key()),
            r matches Some(a) ==> old(self).analysis(contract_identifier.key()) == Some(a.model()),
    {
        let key = analysis_key_bytes();
        proof {
            lemma_latest_decodes(self.store.log(), contract_identifier.key());
        }
        match self.store.get_metadata(contract_identifier, &key) {
            Some(bytes) => ContractAnalysis::deserialize(&bytes),
            None => None,
        }
    }

    /// What inserting analysis `a` for contract `c` does: it fails, changing
    /// nothing, where `c` already has one; otherwise it stores `a` for `c`
    /// and leaves every other contract as it was.
    pub open spec fn insert_outcome(
        before: AnalysisDatabase,
        after: AnalysisDatabase,
        c: (Seq<u8>, Seq<u8>),
        a: AnalysisModel,
        r: CheckResult<()>,
    ) -> bool {
        &&& after.wf()
        &&& before.has(c) ==> after == before && (r matches Err(CheckErrors::ContractAlreadyExists(e))
            && e.key() == c)
        &&& !before.has(c) ==> r is Ok && after.analysis(c) == Some(a) && after.stored(c) == Some(
            analysis_bytes(a),
        ) && after.store.log() == before.store.log().push(((c, analysis_key()), analysis_bytes(a)))
        &&& forall|d: (Seq<u8>, Seq<u8>)| d != c ==> #[trigger] after.stored(d) == before.stored(d)
        &&& after.store.depth() == before.store.depth()
        &&& before.store.depth() > 0 ==> after.store.store@ == before.store.store@
            && after.store.frames_view().drop_last() == before.store.frames_view().drop_last()
    }

    /// Caches the analysis of a contract that has none yet.
    pub fn insert_contract(&mut self, contract_identifier: &QualifiedContractIdentifier, contract: &ContractAnalysis) -> (r: CheckResult<()>)
        requires
            old(self).wf(),
            analysis_wf(contract.model()),
        ensures
            Self::insert_outcome(*old(self), *final(self), contract_identifier.key(), contract.model(), r),
    {
        let key = analysis_key_bytes();
        if self.store.has_metadata_entry(contract_identifier, &key) {
            return Err(CheckErrors::ContractAlreadyExists(contract_identifier.duplicate()));
        }
        let bytes = contract.serialize();
        let written: usize = bytes.len();
        let ghost before = self.store.log();
        self.store.insert_metadata(contract_identifier, &key, &bytes);
        proof {
            let e = ((contract_identifier.key(), analysis_key()), bytes@);
            let now = self.store.log();
            assert(now == before.push(e));
            assert forall|c: (Seq<u8>, Seq<u8>)|
                c != contract_identifier.key() implies #[trigger] self.stored(c) == old(self).stored(c) by {
                assert(now.drop_last() =~= before);
            }
            assert(now.drop_last() =~= before);
            assert(bytes@.len() == written);
            lemma_round_trip(contract.model());
            assert forall|i: int| #![trigger now[i]]
                0 <= i < now.len() && now[i].0.1 == analysis_key() implies decode_analysis(now[i].1) is Some by {
                if i < before.len() {
                    assert(now[i] == before[i]);
                }
            }
        }
        Ok(())
    }

    /// The signature of a public function of the contract.
    pub fn get_public_function_type(&mut self, contract_identifier: &QualifiedContractIdentifier, function_name: &str) -> (r: CheckResult<Option<FunctionType>>)
        requires
            old(self).wf(),
        ensures
            *final(self) == *old(self),
            !old(self).has(contract_identifier.key()) ==> (r matches Err(CheckErrors::NoSuchContract(c))
                && c.key() == contract_identifier.key()),
            old(self).analysis(contract_identifier.key()) matches Some(m) ==> match find_by_name(
                public_functions_of(m),
                function_name.spec_bytes(),
            ) {
                Some(t) => r matches Ok(Some(f)) && f.model() == t,
                None => r matches Ok(None),
            },
    {
        let contract = match self.load_contract(contract_identifier) {
            Some(a) => a,
            None => return Err(CheckErrors::NoSuchContract(contract_identifier.duplicate())),
        };
        let name = ClarityName::new(function_name);
        let mut functions = contract.public_function_types;
        let found = position_by_name(&functions, &name);
        proof {
            let i = match found {
                Some(i) => i as int,
                None => functions@.len() as int,
            };
            assert forall|j: int| 0 <= j < i implies #[trigger] functions.model()[j].0 != name@ by {
                assert(functions.model()[j].0 == functions@[j].name_view());
            }
            if i < functions@.len() {
                assert(functions.model()[i].0 == functions@[i].name_view());
            }
            lemma_find_by_name(functions.model(), name@, i);
        }
        match found {
            Some(i) => {
                let e = functions.remove(i);
                Ok(Some(e.function_type))
            },
            None => Ok(None),
        }
    }

    /// The signature of a read-only function of the contract.
    pub fn get_read_only_function_type(&mut self, contract_identifier: &QualifiedContractIdentifier, function_name: &str) -> (r: CheckResult<Option<FunctionType>>)
        requires
            old(self).wf(),
        ensures
            *final(self) == *old(self),
            !old(self).has(contract_identifier.key()) ==> (r matches Err(CheckErrors::NoSuchContract(c))
                && c.key() == contract_identifier.key()),
            old(self).analysis(contract_identifier.key()) matches Some(m) ==> match find_by_name(
                read_only_functions_of(m),
                function_name.spec_bytes(),
            ) {
                Some(t) => r matches Ok(Some(f)) && f.model() == t,
                None => r matches Ok(None),
            },
    {
        let contract = match self.load_contract(contract_identifier) {
            Some(a) => a,
            None => return Err(CheckErrors::NoSuchContract(contract_identifier.duplicate())),
        };
        let name = ClarityName::new(function_name);
        let mut functions = contract.read_only_function_types;
        let found = position_by_name(&functions, &name);
        proof {
            let i = match found {
                Some(i) => i as int,
                None => functions@.len() as int,
            };
            assert forall|j: int| 0 <= j < i implies #[trigger] functions.model()[j].0 != name@ by {
                assert(functions.model()[j].0 == functions@[j].name_view());
            }
            if i < functions@.len() {
                assert(functions.model()[i].0 == functions@[i].name_view());
            }
            lemma_find_by_name(functions.model(), name@, i);
        }
        match found {
            Some(i) => {
                let e = functions.remove(i);
                Ok(Some(e.function_type))
            },
            None => Ok(None),
        }
    }

    /// The functions that a trait defined by the contract requires.
    pub fn get_defined_trait(&mut self, contract_identifier: &QualifiedContractIdentifier, trait_name: &str) -> (r: CheckResult<Option<Vec<FunctionEntry>>>)
        requires
            old(self).wf(),
        ensures
            *final(self) == *old(self),
            !old(self).has(contract_identifier.key()) ==> (r matches Err(CheckErrors::NoSuchContract(c))
                && c.key() == contract_identifier.key()),
            old(self).analysis(contract_identifier.key()) matches Some(m) ==> match find_by_name(
                defined_traits_of(m),
                trait_name.spec_bytes(),
            ) {
                Some(t) => r matches Ok(Some(f)) && f.model() == t,
                None => r matches Ok(None),
            },
    {
        let contract = match self.load_contract(contract_identifier) {
            Some(a) => a,
            None => return Err(CheckErrors::NoSuchContract(contract_identifier.duplicate())),
        };
        let name = ClarityName::new(trait_name);
        let mut traits = contract.defined_traits;
        let found = position_by_name(&traits, &name);
        proof {
            let i = match found {
                Some(i) => i as int,
                None => traits@.len() as int,
            };
            assert forall|j: int| 0 <= j < i implies #[trigger] traits.model()[j].0 != name@ by {
                assert(traits.model()[j].0 == traits@[j].name_view());
            }
            if i < traits@.len() {
                assert(traits.model()[i].0 == traits@[i].name_view());
            }
            lemma_find_by_name(traits.model(), name@, i);
        }
        match found {
            Some(i) => {
                let e = traits.remove(i);
                Ok(Some(e.functions))
            },
            None => Ok(None),
        }
    }

    /// The traits that the contract implements.
    pub fn get_implemented_traits(&mut self, contract_identifier: &QualifiedContractIdentifier) -> (r: CheckResult<Vec<TraitIdentifier>>)
        requires
            old(self).wf(),
        ensures
            *final(self) == *old(self),
            !old(self).has(contract_identifier.key()) ==> (r matches Err(CheckErrors::NoSuchContract(c))
                && c.key() == contract_identifier.key()),
            old(self).analysis(contract_identifier.key()) matches Some(m) ==> (r matches Ok(v) && v.model()
                == implemented_traits_of(m)),
    {
        let contract = match self.load_contract(contract_identifier) {
            Some(a) => a,
            None => return Err(CheckErrors::NoSuchContract(contract_identifier.duplicate())),
        };
        Ok(contract.implemented_traits)
    }

    /// What asking for the types of map `name` of contract `c` gives: the
    /// contract's absence, the map's absence, or the map's key and value
    /// types.
    pub open spec fn map_type_outcome(
        &self,
        c: (Seq<u8>, Seq<u8>),
        name: Seq<u8>,
        r: CheckResult<(TypeSignature, TypeSignature)>,
    ) -> bool {
        &&& !self.has(c) ==> (r matches Err(CheckErrors::NoSuchContract(e)) && e.key() == c)
        &&& self.analysis(c) matches Some(m) ==> match find_by_name(map_types_of(m), name) {
            Some(t) => r == Ok::<(TypeSignature, TypeSignature), CheckErrors>(t),
            None => r matches Err(CheckErrors::NoSuchMap(n)) && n@ == name,
        }
    }

    /// The key and value types of a data map that the contract declares.
    pub fn get_map_type(&mut self, contract_identifier: &QualifiedContractIdentifier, map_name: &str) -> (r: CheckResult<(TypeSignature, TypeSignature)>)
        requires
            old(self).wf(),
        ensures
            *final(self) == *old(self),
            old(self).map_type_outcome(contract_identifier.key(), map_name.spec_bytes(), r),
    {
        let contract = match self.load_contract(contract_identifier) {
            Some(a) => a,
            None => return Err(CheckErrors::NoSuchContract(contract_identifier.duplicate())),
        };
        let name = ClarityName::new(map_name);
        let maps = contract.map_types;
        let found = position_by_name(&maps, &name);
        proof {
            let i = match found {
                Some(i) => i as int,
                None => maps@.len() as int,
            };
            assert forall|j: int| 0 <= j < i implies #[trigger] maps.model()[j].0 != name@ by {
                assert(maps.model()[j].0 == maps@[j].name_view());
            }
            if i < maps@.len() {
                assert(maps.model()[i].0 == maps@[i].name_view());
            }
            lemma_find_by_name(maps.model(), name@, i);
        }
        match found {
            Some(i) => Ok((maps[i].key_type, maps[i].value_type)),
            None => Err(CheckErrors::NoSuchMap(name)),
        }
    }

    /// Gives back the rollback store.
    pub fn destroy(self) -> (r: RollbackWrapper)
        ensures
            r == self.store,
    {
        self.store
    }
}

/// Write-once: inserting `a` for a contract `c` that has no analysis, then
/// `b` for the same `c`, fails the second insert with
/// `ContractAlreadyExists`, and `c` still holds `a` afterwards.
pub proof fn lemma_write_once(
    d0: AnalysisDatabase,
    d1: AnalysisDatabase,
    d2: AnalysisDatabase,
    c: (Seq<u8>, Seq<u8>),
    a: AnalysisModel,
    b: AnalysisModel,
    r1: CheckResult<()>,
    r2: CheckResult<()>,
)
    requires
        d0.wf(),
        !d0.has(c),
        AnalysisDatabase::insert_outcome(d0, d1, c, a, r1),
        AnalysisDatabase::insert_outcome(d1, d2, c, b, r2),
    ensures
        r1 is Ok,
        r2 matches Err(CheckErrors::ContractAlreadyExists(e)) && e.key() == c,
        d2.analysis(c) == Some(a),
{
}

/// Atomicity: when a unit of inserts for contracts that have no analysis
/// fails, none of them has one afterwards; when it succeeds, all of them
/// have one.
pub proof fn lemma_execute_atomic(
    d0: AnalysisDatabase,
    d1: AnalysisDatabase,
    work: Seq<(QualifiedContractIdentifier, ContractAnalysis)>,
    r: CheckResult<()>,
)
    requires
        d0.wf(),
        forall|i: int| 0 <= i < work.len() ==> !d0.has(#[trigger] work[i].0.key()),
        AnalysisDatabase::insert_all_outcome(d0, d1, work, r),
    ensures
        r is Err ==> forall|i: int| 0 <= i < work.len() ==> !d1.has(#[trigger] work[i].0.key()),
        r is Ok ==> forall|i: int| 0 <= i < work.len() ==> d1.has(#[trigger] work[i].0.key()),
{
    if r is Ok {
        assert forall|i: int| 0 <= i < work.len() implies d1.has(#[trigger] work[i].0.key()) by {
            assert(d1.analysis(work[i].0.key()) == Some(work[i].1.model()));
        }
    }
}

/// Projection: once a well-formed `a` is inserted for a contract `c` that
/// had none, asking for map `name` of `c` gives the key and value types that
/// `a` declares for it, or `NoSuchMap` where `a` declares no such map; and
/// asking for any map of a contract `u` that has no analysis gives
/// `NoSuchContract`.
pub proof fn lemma_map_projection(
    d0: AnalysisDatabase,
    d1: AnalysisDatabase,
    c: (Seq<u8>, Seq<u8>),
    a: AnalysisModel,
    r: CheckResult<()>,
    name: Seq<u8>,
    r2: CheckResult<(TypeSignature, TypeSignature)>,
    u: (Seq<u8>, Seq<u8>),
    r3: CheckResult<(TypeSignature, TypeSignature)>,
)
    requires
        d0.wf(),
        !d0.has(c),
        analysis_wf(a),
        AnalysisDatabase::insert_outcome(d0, d1, c, a, r),
        d1.map_type_outcome(c, name, r2),
        !d1.has(u),
        d1.map_type_outcome(u, name, r3),
    ensures
        forall|i: int|
            0 <= i < map_types_of(a).len() && #[trigger] map_types_of(a)[i].0 == name ==> r2 == Ok::<
                (TypeSignature, TypeSignature),
                CheckErrors,
            >(map_types_of(a)[i].1),
        find_by_name(map_types_of(a), name) is None ==> (r2 matches Err(CheckErrors::NoSuchMap(n)) && n@
            == name),
        r3 matches Err(CheckErrors::NoSuchContract(e)) && e.key() == u,
{
    let s = map_types_of(a);
    assert forall|i: int| 0 <= i < s.len() && #[trigger] s[i].0 == name implies r2 == Ok::<
        (TypeSignature, TypeSignature),
        CheckErrors,
    >(s[i].1) by {
        assert forall|j: int| 0 <= j < i implies #[trigger] s[j].0 != name by {
            assert(s[j].0 != s[i].0);
        }
        lemma_find_by_name(s, name, i);
    }
}

/// Atomicity of a scoped unit of work: whatever it wrote before failing,
/// including what nested units committed into its frame, a failed unit
/// leaves every contract as it was, so contracts without an analysis still
/// have none; a unit that succeeds leaves visible exactly what it had
/// written when it returned.
pub proof fn lemma_scoped_atomic<T, E, F: FnOnce(AnalysisDatabase) -> (AnalysisDatabase, Result<T, E>)>(
    before: AnalysisDatabase,
    f: F,
    after: AnalysisDatabase,
    r: Result<T, E>,
    ids: Seq<(Seq<u8>, Seq<u8>)>,
)
    requires
        before.wf(),
        forall|i: int| 0 <= i < ids.len() ==> !before.has(#[trigger] ids[i]),
        AnalysisDatabase::scoped_outcome(before, f, after, r),
    ensures
        r is Err ==> forall|c: (Seq<u8>, Seq<u8>)| #[trigger] after.stored(c) == before.stored(c),
        r is Err ==> forall|i: int| 0 <= i < ids.len() ==> !after.has(#[trigger] ids[i]),
        r is Ok ==> exists|d_in: AnalysisDatabase, d_out: AnalysisDatabase|
            before.nested_in(d_in) && #[trigger] f.ensures((d_in,), (d_out, r)) && forall|c: (Seq<u8>, Seq<u8>)|
                #[trigger] after.stored(c) == d_out.stored(c),
{
    if r is Err {
        assert(after.store.log() == before.store.log());
        assert forall|i: int| 0 <= i < ids.len() implies !after.has(#[trigger] ids[i]) by {
            assert(!before.has(ids[i]));
        }
    }
}

} // verus!
