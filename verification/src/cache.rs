//! The account cache: a mapping from address to account record with unique
//! keys and a stable (insertion) entry order.

use vstd::prelude::*;
use vstd::pervasive::VecAdditionalExecFns;
use crate::addr::{Address, ADDRESS_LEN};
use crate::record::{AccountRecord, RecordView};

verus! {

/// No two entries share a key.
pub open spec fn unique_keys(s: Seq<(Seq<u8>, RecordView)>) -> bool {
    forall|i: int, j: int| 0 <= i < j < s.len() ==> (#[trigger] s[i]).0 != (#[trigger] s[j]).0
}

/// The mapping an entry sequence denotes; later entries would win, though a
/// well-formed cache never repeats a key.
pub open spec fn seq_to_map(s: Seq<(Seq<u8>, RecordView)>) -> Map<Seq<u8>, RecordView>
    decreases s.len(),
{
    if s.len() == 0 {
        Map::empty()
    } else {
        seq_to_map(s.drop_last()).insert(s.last().0, s.last().1)
    }
}

/// A key is in the denoted map exactly when some entry carries it.
pub proof fn lemma_seq_to_map_contains(s: Seq<(Seq<u8>, RecordView)>, k: Seq<u8>)
    ensures
        seq_to_map(s).dom().contains(k) <==> exists|i: int| 0 <= i < s.len() && (#[trigger] s[i]).0 == k,
    decreases s.len(),
{
    if s.len() > 0 {
        let pre = s.drop_last();
        lemma_seq_to_map_contains(pre, k);
        assert(forall|i: int| 0 <= i < pre.len() ==> #[trigger] pre[i] == s[i]);
        if s.last().0 == k {
            assert(s[s.len() - 1].0 == k);
        } else {
            if exists|i: int| 0 <= i < s.len() && (#[trigger] s[i]).0 == k {
                let i = choose|i: int| 0 <= i < s.len() && (#[trigger] s[i]).0 == k;
                assert(i < s.len() - 1);
                assert(pre[i].0 == k);
            }
        }
    }
}

/// With unique keys, the denoted map sends each entry's key to its record.
pub proof fn lemma_seq_to_map_index(s: Seq<(Seq<u8>, RecordView)>, i: int)
    requires
        unique_keys(s),
        0 <= i < s.len(),
    ensures
        seq_to_map(s).dom().contains(s[i].0),
        seq_to_map(s)[s[i].0] == s[i].1,
    decreases s.len(),
{
    if i == s.len() - 1 {
    } else {
        let pre = s.drop_last();
        assert(forall|j: int| 0 <= j < pre.len() ==> #[trigger] pre[j] == s[j]);
        lemma_seq_to_map_index(pre, i);
        assert(s[s.len() - 1].0 != s[i].0);
    }
}

/// Replacing the entry that carries `k` updates the denoted map at `k`.
pub proof fn lemma_seq_to_map_update(s: Seq<(Seq<u8>, RecordView)>, i: int, k: Seq<u8>, v: RecordView)
    requires
        unique_keys(s),
        0 <= i < s.len(),
        s[i].0 == k,
    ensures
        seq_to_map(s.update(i, (k, v))) == seq_to_map(s).insert(k, v),
    decreases s.len(),
{
    let su = s.update(i, (k, v));
    if i == s.len() - 1 {
        assert(su.drop_last() =~= s.drop_last());
        assert(seq_to_map(su) =~= seq_to_map(s).insert(k, v));
    } else {
        let pre = s.drop_last();
        assert(forall|j: int| 0 <= j < pre.len() ==> #[trigger] pre[j] == s[j]);
        lemma_seq_to_map_update(pre, i, k, v);
        assert(su.drop_last() =~= pre.update(i, (k, v)));
        assert(su.last() == s.last());
        assert(s.last().0 != k);
        assert(seq_to_map(su) =~= seq_to_map(s).insert(k, v));
    }
}

/// Address to record, unique keys, no eviction; lives for one session.
#[derive(Debug)]
pub struct AccountCache {
    pub entries: Vec<(Address, AccountRecord)>,
}

impl View for AccountCache {
    type V = Map<Seq<u8>, RecordView>;

    open spec fn view(&self) -> Map<Seq<u8>, RecordView> {
        seq_to_map(self.entry_seq())
    }
}

impl AccountCache {
    /// The entries as (key bytes, record view) pairs, in insertion order.
    pub open spec fn entry_seq(self) -> Seq<(Seq<u8>, RecordView)> {
        self.entries@.map_values(|e: (Address, AccountRecord)| (e.0@, e.1@))
    }

    /// Well-formed: keys unique and every address full-length.
    pub open spec fn wf(self) -> bool {
        &&& unique_keys(self.entry_seq())
        &&& forall|i: int| 0 <= i < self.entry_seq().len() ==> (#[trigger] self.entry_seq()[i]).0.len()
            == ADDRESS_LEN && self.entry_seq()[i].1.wf()
    }

    /// An empty cache.
    pub fn new() -> (c: AccountCache)
        ensures
            c.wf(),
            c.entry_seq() == Seq::<(Seq<u8>, RecordView)>::empty(),
            c@ == Map::<Seq<u8>, RecordView>::empty(),
    {
        let c = AccountCache { entries: Vec::new() };
        proof {
            assert(c.entry_seq() =~= Seq::<(Seq<u8>, RecordView)>::empty());
        }
        c
    }

    /// Number of cached entries.
    pub fn len(&self) -> (n: usize)
        ensures
            n == self.entry_seq().len(),
    {
        self.entries.len()
    }

    /// The address of the `i`-th entry, in insertion order.
    pub fn address_at(&self, i: usize) -> (a: &Address)
        requires
            i < self.entry_seq().len(),
        ensures
            a@ == self.entry_seq()[i as int].0,
    {
        &self.entries[i].0
    }

    /// The record of the `i`-th entry, in insertion order.
    pub fn record_at(&self, i: usize) -> (r: &AccountRecord)
        requires
            i < self.entry_seq().len(),
        ensures
            r@ == self.entry_seq()[i as int].1,
    {
        &self.entries[i].1
    }

    /// Index of the entry carrying `a`, if any.
    fn find_index(&self, a: &Address) -> (r: Option<usize>)
        ensures
            r matches Some(i) ==> i < self.entry_seq().len() && self.entry_seq()[i as int].0 == a@,
            r is None ==> forall|i: int| 0 <= i < self.entry_seq().len()
                ==> (#[trigger] self.entry_seq()[i]).0 != a@,
    {
        let n = self.entries.len();
        let mut i: usize = 0;
        while i < n
            invariant
                n == self.entry_seq().len(),
                i <= n,
                forall|j: int| 0 <= j < i ==> (#[trigger] self.entry_seq()[j]).0 != a@,
            decreases n - i,
        {
            if self.entries[i].0.same_as(a) {
                return Some(i);
            }
            i += 1;
        }
        None
    }

    /// Whether an entry for `a` is cached.
    pub fn contains(&self, a: &Address) -> (r: bool)
        requires
            self.wf(),
        ensures
            r == self@.dom().contains(a@),
    {
        let found = self.find_index(a);
        proof {
            lemma_seq_to_map_contains(self.entry_seq(), a@);
        }
        match found {
            Some(_) => true,
            None => false,
        }
    }

    /// The cached record for `a`, if any.
    pub fn get(&self, a: &Address) -> (r: Option<&AccountRecord>)
        requires
            self.wf(),
        ensures
            match r {
                Some(rec) => self@.dom().contains(a@) && rec@ == self@[a@],
                None => !self@.dom().contains(a@),
            },
    {
        match self.find_index(a) {
            Some(i) => {
                proof {
                    lemma_seq_to_map_index(self.entry_seq(), i as int);
                }
                Some(&self.entries[i].1)
            },
            None => {
                proof {
                    lemma_seq_to_map_contains(self.entry_seq(), a@);
                }
                None
            },
        }
    }

    /// Inserts or overwrites whole: a present key is replaced in place, a new
    /// key is appended, so entry order is the order of first insertion.
    pub fn put(&mut self, a: Address, rec: AccountRecord)
        requires
            old(self).wf(),
            a.wf(),
            rec.wf(),
        ensures
            final(self).wf(),
            final(self)@ == old(self)@.insert(a@, rec@),
            old(self)@.dom().contains(a@) ==> final(self).entry_seq().len() == old(
                self,
            ).entry_seq().len(),
            !old(self)@.dom().contains(a@) ==> final(self).entry_seq() == old(
                self,
            ).entry_seq().push((a@, rec@)),
    {
        proof {
            lemma_seq_to_map_contains(old(self).entry_seq(), a@);
        }
        match self.find_index(&a) {
            Some(i) => {
                proof {
                    lemma_seq_to_map_update(self.entry_seq(), i as int, a@, rec@);
                }
                let ghost s0 = self.entry_seq();
                self.entries.set(i, (a, rec));
                proof {
                    assert(self.entry_seq() =~= s0.update(i as int, (a@, rec@)));
                }
            },
            None => {
                let ghost s0 = self.entry_seq();
                self.entries.push((a, rec));
                proof {
                    assert(self.entry_seq() =~= s0.push((a@, rec@)));
                    assert(self.entry_seq().drop_last() =~= s0);
                }
            },
        }
    }
}

} // verus!
