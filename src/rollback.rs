//! A stack of uncommitted write frames over a backing store of metadata
//! entries. What a reader sees under a key is the value written last, over the
//! durable entries followed by the frames from the bottom up.
use crate::types::{bytes_equal, copy_bytes, QualifiedContractIdentifier};
use vstd::prelude::*;

verus! {

/// A contract and a metadata key under it, as byte strings.
pub type MetadataKey = ((Seq<u8>, Seq<u8>), Seq<u8>);

/// One write: a metadata entry of a contract.
pub struct MetadataEntry {
    pub contract: QualifiedContractIdentifier,
    pub key: Vec<u8>,
    pub value: Vec<u8>,
}

impl View for MetadataEntry {
    type V = (MetadataKey, Seq<u8>);

    open spec fn view(&self) -> (MetadataKey, Seq<u8>) {
        ((self.contract.key(), self.key@), self.value@)
    }
}

pub open spec fn entries_view(v: Seq<MetadataEntry>) -> Seq<(MetadataKey, Seq<u8>)> {
    v.map_values(|e: MetadataEntry| e@)
}

/// The value written last under `k` in `log`, if any.
pub open spec fn latest(log: Seq<(MetadataKey, Seq<u8>)>, k: MetadataKey) -> Option<Seq<u8>>
    decreases log.len(),
{
    if log.len() == 0 {
        None
    } else if log.last().0 == k {
        Some(log.last().1)
    } else {
        latest(log.drop_last(), k)
    }
}

/// The frames' writes, from the bottom frame up.
pub open spec fn concat_frames(f: Seq<Seq<(MetadataKey, Seq<u8>)>>) -> Seq<(MetadataKey, Seq<u8>)>
    decreases f.len(),
{
    if f.len() == 0 {
        Seq::empty()
    } else {
        concat_frames(f.drop_last()) + f.last()
    }
}

pub proof fn lemma_latest_concat(a: Seq<(MetadataKey, Seq<u8>)>, b: Seq<(MetadataKey, Seq<u8>)>, k: MetadataKey)
    ensures
        latest(a + b, k) == (if latest(b, k) is Some {
            latest(b, k)
        } else {
            latest(a, k)
        }),
    decreases b.len(),
{
    if b.len() == 0 {
        assert(a + b =~= a);
    } else {
        assert((a + b).drop_last() =~= a + b.drop_last());
        lemma_latest_concat(a, b.drop_last(), k);
    }
}

/// The durable entries under the frames.
pub struct BackingStore {
    pub entries: Vec<MetadataEntry>,
}

impl View for BackingStore {
    type V = Seq<(MetadataKey, Seq<u8>)>;

    open spec fn view(&self) -> Seq<(MetadataKey, Seq<u8>)> {
        entries_view(self.entries@)
    }
}

impl BackingStore {
    pub fn new() -> (r: BackingStore)
        ensures
            r@ == Seq::<(MetadataKey, Seq<u8>)>::empty(),
    {
        let r = BackingStore { entries: Vec::new() };
        assert(r@ =~= Seq::<(MetadataKey, Seq<u8>)>::empty());
        r
    }
}

fn entry_matches(e: &MetadataEntry, contract: &QualifiedContractIdentifier, key: &Vec<u8>) -> (r: bool)
    ensures
        r == (e@.0 == (contract.key(), key@)),
{
    bytes_equal(&e.contract.issuer.bytes, &contract.issuer.bytes) && bytes_equal(
        &e.contract.name.bytes,
        &contract.name.bytes,
    ) && bytes_equal(&e.key, key)
}

/// The value written last under the key among `entries`.
fn find_latest(entries: &Vec<MetadataEntry>, contract: &QualifiedContractIdentifier, key: &Vec<u8>) -> (r: Option<Vec<u8>>)
    ensures
        r matches Some(v) ==> latest(entries_view(entries@), (contract.key(), key@)) == Some(v@),
        r is None ==> latest(entries_view(entries@), (contract.key(), key@)) is None,
{
    let ghost k = (contract.key(), key@);
    let mut i: usize = entries.len();
    assert(entries@.take(i as int) =~= entries@);
    while i > 0
        invariant
            i <= entries.len(),
            k == (contract.key(), key@),
            latest(entries_view(entries@), k) == latest(entries_view(entries@.take(i as int)), k),
        decreases i,
    {
        let ghost s = entries_view(entries@.take(i as int));
        assert(s.drop_last() =~= entries_view(entries@.take(i - 1)));
        assert(s.len() == i);
        assert(s.last() == entries@[i - 1]@);
        if entry_matches(&entries[i - 1], contract, key) {
            let v = copy_bytes(&entries[i - 1].value);
            assert(latest(s, k) == Some(s.last().1));
            assert(s.last().1 == v@);
            return Some(v);
        }
        assert(latest(s, k) == latest(s.drop_last(), k));
        i = i - 1;
    }
    assert(entries_view(entries@.take(0)) =~= Seq::<(MetadataKey, Seq<u8>)>::empty());
    None
}

/// The rollback layer: a backing store and a stack of open frames.
pub struct RollbackWrapper {
    pub store: BackingStore,
    pub frames: Vec<Vec<MetadataEntry>>,
}

impl RollbackWrapper {
    /// The open frames' writes, bottom frame first.
    pub open spec fn frames_view(&self) -> Seq<Seq<(MetadataKey, Seq<u8>)>> {
        self.frames@.map_values(|f: Vec<MetadataEntry>| entries_view(f@))
    }

    /// Number of open frames.
    pub open spec fn depth(&self) -> nat {
        self.frames@.len()
    }

    /// Every write that is visible: the store's, then the frames'.
    pub open spec fn log(&self) -> Seq<(MetadataKey, Seq<u8>)> {
        self.store@ + concat_frames(self.frames_view())
    }

    /// What a reader sees under `k`.
    pub open spec fn lookup(&self, k: MetadataKey) -> Option<Seq<u8>> {
        latest(self.log(), k)
    }

    pub fn new(store: BackingStore) -> (r: RollbackWrapper)
        ensures
            r.store@ == store@,
            r.depth() == 0,
            r.log() == store@,
    {
        let r = RollbackWrapper { store, frames: Vec::new() };
        assert(r.frames_view() =~= Seq::<Seq<(MetadataKey, Seq<u8>)>>::empty());
        assert(r.log() =~= store@);
        r
    }

    /// Opens a frame.
    pub fn nest(&mut self)
        ensures
            final(self).store@ == old(self).store@,
            final(self).frames_view() == old(self).frames_view().push(Seq::empty()),
            final(self).log() == old(self).log(),
    {
        self.frames.push(Vec::new());
        let ghost g = self.frames_view();
        assert(g =~~= old(self).frames_view().push(Seq::empty()));
        assert(g.drop_last() =~= old(self).frames_view());
        assert(concat_frames(g) =~= concat_frames(old(self).frames_view()));
    }

    /// Closes the top frame, keeping its writes: they move into the frame
    /// below it, or into the store if it was the last one.
    pub fn commit(&mut self)
        requires
            old(self).depth() > 0,
        ensures
            final(self).depth() == old(self).depth() - 1,
            final(self).log() == old(self).log(),
            old(self).depth() >= 2 ==> final(self).store@ == old(self).store@
                && final(self).frames_view().drop_last() == old(self).frames_view().drop_last().drop_last(),
    {
        let ghost f = old(self).frames_view();
        let top = self.frames.pop().unwrap();
        let ghost fm = self.frames_view();
        assert(fm =~= f.drop_last());
        if self.frames.len() == 0 {
            let mut top = top;
            self.store.entries.append(&mut top);
            assert(self.frames_view() =~= Seq::<Seq<(MetadataKey, Seq<u8>)>>::empty());
            assert(f.drop_last() =~= Seq::<Seq<(MetadataKey, Seq<u8>)>>::empty());
            assert(self.store@ =~= old(self).store@ + f.last());
            assert(concat_frames(f) == concat_frames(f.drop_last()) + f.last());
            assert(concat_frames(f.drop_last()) =~= Seq::<(MetadataKey, Seq<u8>)>::empty());
            assert(concat_frames(self.frames_view()) =~= Seq::<(MetadataKey, Seq<u8>)>::empty());
            assert(self.log() =~= old(self).log());
        } else {
            let mut below = self.frames.pop().unwrap();
            let mut top = top;
            below.append(&mut top);
            self.frames.push(below);
            let ghost g = self.frames_view();
            assert(g.drop_last() =~= f.drop_last().drop_last());
            assert(g.last() =~~= f.drop_last().last() + f.last());
            assert(concat_frames(f) == concat_frames(f.drop_last()) + f.last());
            assert(concat_frames(f.drop_last()) == concat_frames(f.drop_last().drop_last())
                + f.drop_last().last());
            assert(concat_frames(g) == concat_frames(g.drop_last()) + g.last());
            assert(concat_frames(g) =~= concat_frames(f));
            assert(self.log() =~= old(self).log());
        }
    }

    /// Closes the top frame and drops its writes.
    pub fn rollback(&mut self)
        requires
            old(self).depth() > 0,
        ensures
            final(self).store@ == old(self).store@,
            final(self).frames_view() == old(self).frames_view().drop_last(),
            final(self).log() == old(self).store@ + concat_frames(old(self).frames_view().drop_last()),
    {
        let _ = self.frames.pop();
        assert(self.frames_view() =~= old(self).frames_view().drop_last());
    }

    /// Writes an entry into the top frame, or into the store if no frame is
    /// open.
    pub fn insert_metadata(&mut self, contract: &QualifiedContractIdentifier, key: &Vec<u8>, value: &Vec<u8>)
        ensures
            final(self).depth() == old(self).depth(),
            final(self).log() == old(self).log().push(((contract.key(), key@), value@)),
            old(self).depth() == 0 ==> final(self).store@ == old(self).store@.push(
                ((contract.key(), key@), value@),
            ),
            old(self).depth() > 0 ==> final(self).store@ == old(self).store@
                && final(self).frames_view().drop_last() == old(self).frames_view().drop_last(),
    {
        let e = MetadataEntry { contract: contract.duplicate(), key: copy_bytes(key), value: copy_bytes(value) };
        let ghost ev = e@;
        let ghost f = old(self).frames_view();
        if self.frames.len() == 0 {
            self.store.entries.push(e);
            assert(self.store@ =~= old(self).store@.push(ev));
            assert(self.frames_view() =~= f);
            assert(f =~= Seq::<Seq<(MetadataKey, Seq<u8>)>>::empty());
            assert(self.log() =~= old(self).log().push(ev));
        } else {
            let mut top = self.frames.pop().unwrap();
            top.push(e);
            self.frames.push(top);
            let ghost g = self.frames_view();
            assert(g.drop_last() =~= f.drop_last());
            assert(g.last() =~~= f.last().push(ev));
            assert(concat_frames(g) =~= concat_frames(f).push(ev));
            assert(self.log() =~= old(self).log().push(ev));
        }
    }

    /// The value visible under the key.
    pub fn get_metadata(&self, contract: &QualifiedContractIdentifier, key: &Vec<u8>) -> (r: Option<Vec<u8>>)
        ensures
            r matches Some(v) ==> self.lookup((contract.key(), key@)) == Some(v@),
            r is None ==> self.lookup((contract.key(), key@)) is None,
    {
        let ghost k = (contract.key(), key@);
        let ghost f = self.frames_view();
        let mut j: usize = self.frames.len();
        assert(f.take(j as int) =~= f);
        while j > 0
            invariant
                j <= self.frames.len(),
                f == self.frames_view(),
                k == (contract.key(), key@),
                f.len() == self.frames@.len(),
                self.lookup(k) == latest(self.store@ + concat_frames(f.take(j as int)), k),
            decreases j,
        {
            assert(f.take(j as int).drop_last() =~= f.take(j - 1));
            assert(f.take(j as int).last() == entries_view(self.frames@[j - 1]@));
            proof {
                lemma_latest_concat(self.store@ + concat_frames(f.take(j - 1)), f.take(j as int).last(), k);
            }
            assert(self.store@ + concat_frames(f.take(j as int)) =~= (self.store@ + concat_frames(
                f.take(j - 1),
            )) + f.take(j as int).last());
            let found = find_latest(&self.frames[j - 1], contract, key);
            if found.is_some() {
                return found;
            }
            j = j - 1;
        }
        assert(f.take(0) =~= Seq::<Seq<(MetadataKey, Seq<u8>)>>::empty());
        assert(self.store@ + concat_frames(f.take(0)) =~= self.store@);
        find_latest(&self.store.entries, contract, key)
    }

    /// Whether a value is visible under the key.
    pub fn has_metadata_entry(&self, contract: &QualifiedContractIdentifier, key: &Vec<u8>) -> (r: bool)
        ensures
            r == self.lookup((contract.key(), key@)) is Some,
    {
        self.get_metadata(contract, key).is_some()
    }
}

} // verus!
