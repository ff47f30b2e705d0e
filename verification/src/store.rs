//! The resolution session: configuration, fetch planning and merging.
//!
//! Network transport is the caller's: the session computes which addresses a
//! fetch must request (`missing_keys`) and merges what the transport returned
//! (`store_fetch_results`). Repeated requests for cached keys plan nothing,
//! which bounds round-trips to one per distinct fetch operation.

use vstd::prelude::*;
use crate::addr::Address;
use crate::cache::AccountCache;
use crate::errors::{ErrorView, RpcError};
use crate::record::{zero_record, AccountRecord, RecordView};

verus! {

/// Commitment level a session queries the ledger at.
#[derive(Debug, Clone, Copy, PartialEq, Eq, Structural)]
pub enum CommitmentLevel {
    Processed,
    Confirmed,
    Finalized,
}

/// One instruction, reduced to the account addresses it references.
#[derive(Debug)]
pub struct Instruction {
    pub accounts: Vec<Address>,
}

impl Instruction {
    /// Every referenced address is full-length.
    pub open spec fn wf(self) -> bool {
        forall|i: int| 0 <= i < self.accounts@.len() ==> (#[trigger] self.accounts@[i]).wf()
    }
}

/// The byte sequences of a list of addresses.
pub open spec fn key_views(s: Seq<Address>) -> Seq<Seq<u8>> {
    s.map_values(|a: Address| a@)
}

/// Every address in the list is full-length.
pub open spec fn keys_wf(s: Seq<Address>) -> bool {
    forall|i: int| 0 <= i < s.len() ==> (#[trigger] s[i]).wf()
}

/// No key occurs twice.
pub open spec fn distinct(s: Seq<Seq<u8>>) -> bool {
    forall|i: int, j: int| 0 <= i < j < s.len() ==> s[i] != s[j]
}

/// The fetch plan for `keys` against a cache domain `dom`: the keys not in
/// `dom`, first occurrence only, in input order.
pub open spec fn missing_unique(keys: Seq<Seq<u8>>, dom: Set<Seq<u8>>) -> Seq<Seq<u8>>
    decreases keys.len(),
{
    if keys.len() == 0 {
        Seq::empty()
    } else {
        let pre = missing_unique(keys.drop_last(), dom);
        if dom.contains(keys.last()) || pre.contains(keys.last()) {
            pre
        } else {
            pre.push(keys.last())
        }
    }
}

/// A planned fetch list holds exactly the requested keys that are not
/// cached, each exactly once.
pub proof fn lemma_missing_unique_props(keys: Seq<Seq<u8>>, dom: Set<Seq<u8>>)
    ensures
        forall|k: Seq<u8>| #![auto] missing_unique(keys, dom).contains(k) <==> keys.contains(k)
            && !dom.contains(k),
        distinct(missing_unique(keys, dom)),
    decreases keys.len(),
{
    if keys.len() > 0 {
        let pre = keys.drop_last();
        let mpre = missing_unique(pre, dom);
        let m = missing_unique(keys, dom);
        lemma_missing_unique_props(pre, dom);
        assert(forall|i: int| 0 <= i < pre.len() ==> #[trigger] pre[i] == keys[i]);
        assert forall|k: Seq<u8>| #[trigger] keys.contains(k) && !dom.contains(k) implies m.contains(
            k,
        ) by {
            if k == keys.last() {
                if !mpre.contains(k) {
                    assert(m.last() == k);
                }
            } else {
                let i = choose|i: int| 0 <= i < keys.len() && keys[i] == k;
                assert(pre[i] == k);
                assert(pre.contains(k));
                assert(mpre.contains(k));
                if !(dom.contains(keys.last()) || mpre.contains(keys.last())) {
                    let j = choose|j: int| 0 <= j < mpre.len() && mpre[j] == k;
                    assert(m[j] == k);
                }
            }
        }
        assert forall|k: Seq<u8>| #[trigger] m.contains(k) implies keys.contains(k)
            && !dom.contains(k) by {
            let i = choose|i: int| 0 <= i < m.len() && m[i] == k;
            if i < mpre.len() {
                assert(mpre[i] == k);
                assert(mpre.contains(k));
                assert(pre.contains(k) && !dom.contains(k));
                let j = choose|j: int| 0 <= j < pre.len() && pre[j] == k;
                assert(keys[j] == k);
            } else {
                assert(m[i] == keys.last());
                assert(keys[keys.len() - 1] == k);
                assert(!dom.contains(keys.last()));
            }
        }
        assert forall|i: int, j: int| 0 <= i < j < m.len() implies m[i] != m[j] by {
            if j < mpre.len() {
            } else if m.len() > mpre.len() {
                assert(j == mpre.len());
                assert(m[i] == mpre[i]);
                assert(mpre.contains(mpre[i]));
            }
        }
    }
}

/// A fetch of keys already cached plans nothing.
pub proof fn lemma_fetch_idempotent(keys: Seq<Seq<u8>>, dom: Set<Seq<u8>>)
    requires
        forall|i: int| 0 <= i < keys.len() ==> dom.contains(#[trigger] keys[i]),
    ensures
        missing_unique(keys, dom) == Seq::<Seq<u8>>::empty(),
    decreases keys.len(),
{
    if keys.len() > 0 {
        let pre = keys.drop_last();
        assert(forall|i: int| 0 <= i < pre.len() ==> #[trigger] pre[i] == keys[i]);
        lemma_fetch_idempotent(pre, dom);
        assert(dom.contains(keys.last()));
    }
}

/// The record views of a list of fetch results.
pub open spec fn opt_record_views(s: Seq<Option<AccountRecord>>) -> Seq<Option<RecordView>> {
    s.map_values(
        |o: Option<AccountRecord>|
            match o {
                Option::Some(r) => Option::Some(r@),
                Option::None => Option::<RecordView>::None,
            },
    )
}

/// What merging fetch results does to the cache mapping: results are stored
/// in order; a missing result is materialized as the zero record in
/// permissive mode and aborts the merge with the offending key otherwise.
pub open spec fn apply_fetch(
    m: Map<Seq<u8>, RecordView>,
    keys: Seq<Seq<u8>>,
    results: Seq<Option<RecordView>>,
    permissive: bool,
) -> Result<Map<Seq<u8>, RecordView>, Seq<u8>>
    decreases keys.len(),
{
    if keys.len() == 0 {
        Ok(m)
    } else {
        match results.first() {
            Option::Some(r) => apply_fetch(
                m.insert(keys.first(), r),
                keys.drop_first(),
                results.drop_first(),
                permissive,
            ),
            Option::None => if permissive {
                apply_fetch(
                    m.insert(keys.first(), zero_record()),
                    keys.drop_first(),
                    results.drop_first(),
                    permissive,
                )
            } else {
                Err(keys.first())
            },
        }
    }
}

/// Permissive merging succeeds on any results.
pub proof fn lemma_apply_fetch_permissive_total(
    m: Map<Seq<u8>, RecordView>,
    keys: Seq<Seq<u8>>,
    results: Seq<Option<RecordView>>,
)
    requires
        keys.len() == results.len(),
    ensures
        apply_fetch(m, keys, results, true) is Ok,
    decreases keys.len(),
{
    if keys.len() > 0 {
        match results.first() {
            Option::Some(r) => lemma_apply_fetch_permissive_total(
                m.insert(keys.first(), r),
                keys.drop_first(),
                results.drop_first(),
            ),
            Option::None => lemma_apply_fetch_permissive_total(
                m.insert(keys.first(), zero_record()),
                keys.drop_first(),
                results.drop_first(),
            ),
        }
    }
}

/// Strict merging fails exactly when some result is missing, and the error
/// names the first missing key.
pub proof fn lemma_apply_fetch_strict_err(
    m: Map<Seq<u8>, RecordView>,
    keys: Seq<Seq<u8>>,
    results: Seq<Option<RecordView>>,
)
    requires
        keys.len() == results.len(),
    ensures
        apply_fetch(m, keys, results, false) is Err <==> exists|i: int|
            0 <= i < results.len() && results[i] is None,
        apply_fetch(m, keys, results, false) matches Err(k) ==> exists|i: int|
            #![auto]
            0 <= i < results.len() && results[i] is None && keys[i] == k && forall|j: int|
                0 <= j < i ==> results[j] is Some,
    decreases keys.len(),
{
    if keys.len() > 0 {
        let kt = keys.drop_first();
        let rt = results.drop_first();
        assert(forall|i: int| 0 <= i < rt.len() ==> #[trigger] rt[i] == results[i + 1]);
        assert(forall|i: int| 0 <= i < kt.len() ==> #[trigger] kt[i] == keys[i + 1]);
        match results.first() {
            Option::Some(r) => {
                lemma_apply_fetch_strict_err(m.insert(keys.first(), r), kt, rt);
                if apply_fetch(m, keys, results, false) is Err {
                    let i = choose|i: int| 0 <= i < rt.len() && rt[i] is None;
                    assert(results[i + 1] is None);
                }
                if exists|i: int| 0 <= i < results.len() && results[i] is None {
                    let i = choose|i: int| 0 <= i < results.len() && results[i] is None;
                    assert(i >= 1);
                    assert(rt[i - 1] is None);
                }
                if apply_fetch(m, keys, results, false) is Err {
                    let k = apply_fetch(m, keys, results, false)->Err_0;
                    let i = choose|i: int|
                        #![auto]
                        0 <= i < rt.len() && rt[i] is None && kt[i] == k && forall|j: int|
                            0 <= j < i ==> rt[j] is Some;
                    assert(results[i + 1] is None && keys[i + 1] == k);
                    assert(forall|j: int| 1 <= j < i + 1 ==> rt[j - 1] is Some && #[trigger] results[j] is Some);
                }
            },
            Option::None => {
                assert(results[0] is None);
            },
        }
    }
}

/// After a successful merge (`apply_fetch` returned `Ok(m2)`) the domain
/// has grown by exactly the fetched keys, untouched keys keep their
/// records, and (for a duplicate-free key list) each fetched key reads back
/// what its result said.
pub proof fn lemma_apply_fetch_ok(
    m: Map<Seq<u8>, RecordView>,
    keys: Seq<Seq<u8>>,
    results: Seq<Option<RecordView>>,
    permissive: bool,
    m2: Map<Seq<u8>, RecordView>,
)
    requires
        keys.len() == results.len(),
        apply_fetch(m, keys, results, permissive) == Ok::<Map<Seq<u8>, RecordView>, Seq<u8>>(m2),
    ensures
        forall|k: Seq<u8>|
            #![trigger m2.dom().contains(k)]
            #![trigger m.dom().contains(k)]
            #![trigger keys.contains(k)]
            m2.dom().contains(k) <==> m.dom().contains(k) || keys.contains(k),
        forall|k: Seq<u8>|
            #![trigger keys.contains(k), m.dom().contains(k)]
            #![trigger m2[k]]
            !keys.contains(k) && m.dom().contains(k) ==> m2[k] == m[k],
        distinct(keys) ==> forall|i: int| 0 <= i < keys.len() ==> (((#[trigger] results[i]) matches
        Option::Some(r) ==> m2[keys[i]] == r) && (results[i] is None ==> permissive && m2[keys[i]]
            == zero_record())),
    decreases keys.len(),
{
    if keys.len() > 0 {
        let kt = keys.drop_first();
        let rt = results.drop_first();
        assert(forall|i: int| 0 <= i < rt.len() ==> #[trigger] rt[i] == results[i + 1]);
        assert(forall|i: int| 0 <= i < kt.len() ==> #[trigger] kt[i] == keys[i + 1]);
        let k0 = keys.first();
        let v0: RecordView = match results.first() {
            Option::Some(r) => r,
            Option::None => zero_record(),
        };
        let m1 = m.insert(k0, v0);
        assert(apply_fetch(m1, kt, rt, permissive) == Ok::<Map<Seq<u8>, RecordView>, Seq<u8>>(m2));
        lemma_apply_fetch_ok(m1, kt, rt, permissive, m2);
        assert forall|k: Seq<u8>| #[trigger] m2.dom().contains(k) implies m.dom().contains(k)
            || keys.contains(k) by {
            assert(m1.dom().contains(k) || kt.contains(k));
            if m1.dom().contains(k) && !m.dom().contains(k) {
                assert(keys[0] == k);
            } else if !m1.dom().contains(k) {
                let i = choose|i: int| 0 <= i < kt.len() && kt[i] == k;
                assert(keys[i + 1] == k);
            }
        }
        assert forall|k: Seq<u8>| m.dom().contains(k) || #[trigger] keys.contains(k) implies m2.dom().contains(
            k,
        ) by {
            if keys.contains(k) {
                let i = choose|i: int| 0 <= i < keys.len() && keys[i] == k;
                if i == 0 {
                    assert(m1.dom().contains(k));
                } else {
                    assert(kt[i - 1] == k);
                    assert(kt.contains(k));
                }
            } else {
                assert(m1.dom().contains(k));
            }
            assert(m1.dom().contains(k) || kt.contains(k));
        }
        assert forall|k: Seq<u8>| !(#[trigger] keys.contains(k)) && m.dom().contains(k) implies m2[k]
            == m[k] by {
            assert(keys[0] != k);
            assert(forall|i: int| 0 <= i < kt.len() && #[trigger] kt[i] == k ==> keys.contains(k));
            assert(!kt.contains(k));
            assert(m1[k] == m[k]);
        }
        if distinct(keys) {
            assert forall|p: int, q: int| 0 <= p < q < kt.len() implies kt[p] != kt[q] by {
                assert(kt[p] == keys[p + 1] && kt[q] == keys[q + 1]);
            }
            assert forall|i: int| 0 <= i < keys.len() implies (((#[trigger] results[i]) matches
            Option::Some(r) ==> m2[keys[i]] == r) && (results[i] is None ==> permissive
                && m2[keys[i]] == zero_record())) by {
                if i == 0 {
                    assert(forall|j: int| 0 <= j < kt.len() && #[trigger] kt[j] == k0 ==> keys[j
                        + 1] == keys[0]);
                    assert(!kt.contains(k0));
                    assert(m1.dom().contains(k0) && m1[k0] == v0);
                    assert(m2[k0] == m1[k0]);
                } else {
                    assert(kt[i - 1] == keys[i] && rt[i - 1] == results[i]);
                    assert((rt[i - 1] matches Option::Some(r) ==> m2[kt[i - 1]] == r) && (rt[i - 1]
                        is None ==> permissive && m2[kt[i - 1]] == zero_record()));
                }
            }
        }
    }
}

/// A session: the cache plus the fetch and resolution configuration.
#[derive(Debug)]
pub struct RpcAccountStore {
    /// Cache of fetched and pre-seeded accounts.
    pub cache: AccountCache,
    /// If true, a missing account is materialized as the zero record; if
    /// false (the default), it is a fatal `AccountNotFound`.
    pub allow_missing: bool,
    /// If true (the default), extracted bytecode is validated before it is
    /// offered for registration.
    pub validate_programs: bool,
    /// Commitment level the caller should query the ledger at.
    pub commitment: CommitmentLevel,
}

impl RpcAccountStore {
    /// Well-formed: the cache is.
    pub open spec fn wf(self) -> bool {
        self.cache.wf()
    }

    /// The cached mapping.
    pub open spec fn accounts(self) -> Map<Seq<u8>, RecordView> {
        self.cache@
    }

    /// The cached entries in insertion order.
    pub open spec fn entries(self) -> Seq<(Seq<u8>, RecordView)> {
        self.cache.entry_seq()
    }

    /// Whether missing accounts are materialized instead of fatal.
    pub open spec fn permissive(self) -> bool {
        self.allow_missing
    }

    /// Whether extracted bytecode is validated.
    pub open spec fn validating(self) -> bool {
        self.validate_programs
    }

    /// A fresh session at the default commitment level: empty cache, strict
    /// about missing accounts, validating programs.
    pub fn new() -> (s: RpcAccountStore)
        ensures
            s.wf(),
            s.entries() == Seq::<(Seq<u8>, RecordView)>::empty(),
            s.accounts() == Map::<Seq<u8>, RecordView>::empty(),
            !s.permissive(),
            s.validating(),
            s.commitment == CommitmentLevel::Confirmed,
    {
        Self::new_with_commitment(CommitmentLevel::Confirmed)
    }

    /// A fresh session at a chosen commitment level.
    pub fn new_with_commitment(commitment: CommitmentLevel) -> (s: RpcAccountStore)
        ensures
            s.wf(),
            s.entries() == Seq::<(Seq<u8>, RecordView)>::empty(),
            s.accounts() == Map::<Seq<u8>, RecordView>::empty(),
            !s.permissive(),
            s.validating(),
            s.commitment == commitment,
    {
        RpcAccountStore {
            cache: AccountCache::new(),
            allow_missing: false,
            validate_programs: true,
            commitment,
        }
    }

    /// Missing accounts are henceforth materialized as zero records.
    pub fn allow_missing_accounts(self) -> (s: RpcAccountStore)
        ensures
            s.entries() == self.entries(),
            s.accounts() == self.accounts(),
            s.permissive(),
            s.validating() == self.validating(),
            s.commitment == self.commitment,
            self.wf() ==> s.wf(),
    {
        RpcAccountStore {
            cache: self.cache,
            allow_missing: true,
            validate_programs: self.validate_programs,
            commitment: self.commitment,
        }
    }

    /// Extracted bytecode is henceforth registered unchecked.
    pub fn skip_program_validation(self) -> (s: RpcAccountStore)
        ensures
            s.entries() == self.entries(),
            s.accounts() == self.accounts(),
            s.permissive() == self.permissive(),
            !s.validating(),
            s.commitment == self.commitment,
            self.wf() ==> s.wf(),
    {
        RpcAccountStore {
            cache: self.cache,
            allow_missing: self.allow_missing,
            validate_programs: false,
            commitment: self.commitment,
        }
    }

    /// Pre-seeds the cache: every pair is stored whole, overwriting any
    /// cached record, in list order.
    pub fn with_accounts(self, accounts: &Vec<(Address, AccountRecord)>) -> (s: RpcAccountStore)
        requires
            self.wf(),
            forall|i: int| 0 <= i < accounts@.len() ==> (#[trigger] accounts@[i]).0.wf()
                && accounts@[i].1.wf(),
        ensures
            s.wf(),
            s.accounts() == extend_map(self.accounts(), pair_views(accounts@)),
            s.permissive() == self.permissive(),
            s.validating() == self.validating(),
            s.commitment == self.commitment,
    {
        let mut s = self;
        let n = accounts.len();
        let mut i: usize = 0;
        while i < n
            invariant
                n == accounts@.len(),
                i <= n,
                s.wf(),
                forall|j: int| 0 <= j < accounts@.len() ==> (#[trigger] accounts@[j]).0.wf()
                    && accounts@[j].1.wf(),
                s.accounts() == extend_map(self.accounts(), pair_views(accounts@.take(i as int))),
                s.permissive() == self.permissive(),
                s.validating() == self.validating(),
                s.commitment == self.commitment,
            decreases n - i,
        {
            let (a, rec) = &accounts[i];
            s.cache.put(a.duplicate(), rec.duplicate());
            i += 1;
            proof {
                assert(accounts@.take(i as int).drop_last() =~= accounts@.take(i as int - 1));
                assert(pair_views(accounts@.take(i as int)).drop_last() =~= pair_views(
                    accounts@.take(i as int).drop_last(),
                ));
            }
        }
        proof {
            assert(accounts@.take(n as int) =~= accounts@);
        }
        s
    }

    /// The fetch plan for `keys`: the ones not yet cached, first occurrence
    /// only, in input order. An empty plan means the fetch is a no-op.
    pub fn missing_keys(&self, keys: &Vec<Address>) -> (m: Vec<Address>)
        requires
            self.wf(),
            keys_wf(keys@),
        ensures
            key_views(m@) == missing_unique(key_views(keys@), self.accounts().dom()),
            keys_wf(m@),
    {
        let mut m: Vec<Address> = Vec::new();
        let n = keys.len();
        let mut i: usize = 0;
        proof {
            assert(key_views(m@) =~= missing_unique(
                key_views(keys@.take(0)),
                self.accounts().dom(),
            ));
        }
        while i < n
            invariant
                n == keys@.len(),
                i <= n,
                self.wf(),
                keys_wf(keys@),
                keys_wf(m@),
                key_views(m@) == missing_unique(key_views(keys@.take(i as int)), self.accounts().dom()),
            decreases n - i,
        {
            let k = &keys[i];
            let ghost pre = key_views(m@);
            let cached = self.cache.contains(k);
            let planned = contains_address(&m, k);
            if !cached && !planned {
                m.push(k.duplicate());
                proof {
                    assert(key_views(m@) =~= pre.push(k@));
                }
            }
            i += 1;
            proof {
                assert(key_views(keys@.take(i as int)).drop_last() =~= key_views(
                    keys@.take(i as int - 1),
                ));
                assert(key_views(keys@.take(i as int)).last() == keys@[i - 1]@);
            }
        }
        proof {
            assert(keys@.take(n as int) =~= keys@);
        }
        m
    }

    /// Merges one batch of fetch results, positionally corresponding to
    /// `keys`. In strict mode the first missing result aborts with
    /// `AccountNotFound` naming its key; the cache then holds the records
    /// merged before the failure.
    pub fn store_fetch_results(
        &mut self,
        keys: &Vec<Address>,
        results: &Vec<Option<AccountRecord>>,
    ) -> (r: Result<(), RpcError>)
        requires
            old(self).wf(),
            keys@.len() == results@.len(),
            keys_wf(keys@),
            forall|i: int| 0 <= i < results@.len() ==> (#[trigger] results@[i] matches Some(rec)
                ==> rec.wf()),
        ensures
            final(self).wf(),
            final(self).permissive() == old(self).permissive(),
            final(self).validating() == old(self).validating(),
            final(self).commitment == old(self).commitment,
            match r {
                Ok(()) => apply_fetch(
                    old(self).accounts(),
                    key_views(keys@),
                    opt_record_views(results@),
                    old(self).permissive(),
                ) == Ok::<_, Seq<u8>>(final(self).accounts()),
                Err(e) => {
                    &&& apply_fetch(
                        old(self).accounts(),
                        key_views(keys@),
                        opt_record_views(results@),
                        old(self).permissive(),
                    ) matches Err(k) && e@ == ErrorView::AccountNotFound(k)
                    &&& !old(self).permissive()
                },
            },
    {
        let ghost kv = key_views(keys@);
        let ghost rv = opt_record_views(results@);
        let n = keys.len();
        let mut i: usize = 0;
        proof {
            assert(kv.skip(0) =~= kv);
            assert(rv.skip(0) =~= rv);
        }
        while i < n
            invariant
                n == keys@.len(),
                n == results@.len(),
                kv == key_views(keys@),
                rv == opt_record_views(results@),
                i <= n,
                self.wf(),
                keys_wf(keys@),
                forall|j: int| 0 <= j < results@.len() ==> (#[trigger] results@[j] matches Some(rec)
                    ==> rec.wf()),
                self.permissive() == old(self).permissive(),
                self.validating() == old(self).validating(),
                self.commitment == old(self).commitment,
                apply_fetch(old(self).accounts(), kv, rv, old(self).permissive()) == apply_fetch(
                    self.accounts(),
                    kv.skip(i as int),
                    rv.skip(i as int),
                    old(self).permissive(),
                ),
            decreases n - i,
        {
            proof {
                assert(kv.skip(i as int).first() == keys@[i as int]@);
                assert(rv.skip(i as int).first() == opt_record_views(results@)[i as int]);
                assert(kv.skip(i as int).drop_first() =~= kv.skip(i as int + 1));
                assert(rv.skip(i as int).drop_first() =~= rv.skip(i as int + 1));
            }
            match &results[i] {
                Some(rec) => {
                    self.cache.put(keys[i].duplicate(), rec.duplicate());
                },
                None => {
                    if self.allow_missing {
                        self.cache.put(keys[i].duplicate(), AccountRecord::default());
                    } else {
                        return Err(RpcError::AccountNotFound(keys[i].duplicate()));
                    }
                },
            }
            i += 1;
        }
        proof {
            assert(kv.skip(n as int) =~= Seq::<Seq<u8>>::empty());
            assert(rv.skip(n as int) =~= Seq::<Option<RecordView>>::empty());
        }
        Ok(())
    }
}

/// The (key bytes, record view) pairs of an address/record list.
pub open spec fn pair_views(s: Seq<(Address, AccountRecord)>) -> Seq<(Seq<u8>, RecordView)> {
    s.map_values(|e: (Address, AccountRecord)| (e.0@, e.1@))
}

/// `m` with every pair of `s` inserted, in order.
pub open spec fn extend_map(
    m: Map<Seq<u8>, RecordView>,
    s: Seq<(Seq<u8>, RecordView)>,
) -> Map<Seq<u8>, RecordView>
    decreases s.len(),
{
    if s.len() == 0 {
        m
    } else {
        extend_map(m, s.drop_last()).insert(s.last().0, s.last().1)
    }
}

/// Whether `v` holds an address equal to `a`.
pub fn contains_address(v: &Vec<Address>, a: &Address) -> (r: bool)
    ensures
        r == key_views(v@).contains(a@),
{
    let n = v.len();
    let mut i: usize = 0;
    while i < n
        invariant
            n == v@.len(),
            i <= n,
            forall|j: int| 0 <= j < i ==> key_views(v@)[j] != a@,
        decreases n - i,
    {
        if v[i].same_as(a) {
            proof {
                assert(key_views(v@)[i as int] == a@);
            }
            return true;
        }
        i += 1;
    }
    proof {
        assert(forall|j: int| 0 <= j < key_views(v@).len() ==> key_views(v@)[j] != a@);
    }
    false
}

/// The union of the addresses referenced by a list of instructions, in
/// order of first appearance across the list (duplicates kept here; the
/// fetch planner removes them).
pub open spec fn all_instruction_keys(ixs: Seq<Instruction>) -> Seq<Seq<u8>>
    decreases ixs.len(),
{
    if ixs.len() == 0 {
        Seq::empty()
    } else {
        all_instruction_keys(ixs.drop_last()) + key_views(ixs.last().accounts@)
    }
}

/// Collects every address referenced by the given instructions, in order.
pub fn instructions_keys(ixs: &Vec<Instruction>) -> (ks: Vec<Address>)
    requires
        forall|i: int| 0 <= i < ixs@.len() ==> (#[trigger] ixs@[i]).wf(),
    ensures
        key_views(ks@) == all_instruction_keys(ixs@),
        keys_wf(ks@),
{
    let mut ks: Vec<Address> = Vec::new();
    let n = ixs.len();
    let mut i: usize = 0;
    proof {
        assert(key_views(ks@) =~= all_instruction_keys(ixs@.take(0)));
    }
    while i < n
        invariant
            n == ixs@.len(),
            i <= n,
            forall|j: int| 0 <= j < ixs@.len() ==> (#[trigger] ixs@[j]).wf(),
            keys_wf(ks@),
            key_views(ks@) == all_instruction_keys(ixs@.take(i as int)),
        decreases n - i,
    {
        let accounts = &ixs[i].accounts;
        let m = accounts.len();
        let mut j: usize = 0;
        while j < m
            invariant
                n == ixs@.len(),
                i < n,
                m == ixs@[i as int].accounts@.len(),
                accounts == &ixs@[i as int].accounts,
                j <= m,
                forall|p: int| 0 <= p < ixs@.len() ==> (#[trigger] ixs@[p]).wf(),
                keys_wf(ks@),
                key_views(ks@) == all_instruction_keys(ixs@.take(i as int)) + key_views(
                    ixs@[i as int].accounts@.take(j as int),
                ),
            decreases m - j,
        {
            let ghost pre = key_views(ks@);
            ks.push(accounts[j].duplicate());
            j += 1;
            proof {
                assert(key_views(ks@) =~= pre.push(ixs@[i as int].accounts@[j - 1]@));
                assert(key_views(ixs@[i as int].accounts@.take(j as int)) =~= key_views(
                    ixs@[i as int].accounts@.take(j as int - 1),
                ).push(ixs@[i as int].accounts@[j - 1]@));
            }
        }
        i += 1;
        proof {
            assert(ixs@.take(i as int).drop_last() =~= ixs@.take(i as int - 1));
            assert(ixs@[i - 1].accounts@.take(m as int) =~= ixs@[i - 1].accounts@);
            assert(key_views(ks@) =~= all_instruction_keys(ixs@.take(i as int)));
        }
    }
    proof {
        assert(ixs@.take(n as int) =~= ixs@);
    }
    ks
}

/// Collects every address one instruction references, in order.
pub fn instruction_keys(ix: &Instruction) -> (ks: Vec<Address>)
    requires
        ix.wf(),
    ensures
        key_views(ks@) == key_views(ix.accounts@),
        keys_wf(ks@),
{
    let mut ks: Vec<Address> = Vec::new();
    let n = ix.accounts.len();
    let mut i: usize = 0;
    while i < n
        invariant
            n == ix.accounts@.len(),
            i <= n,
            ix.wf(),
            keys_wf(ks@),
            key_views(ks@) == key_views(ix.accounts@.take(i as int)),
        decreases n - i,
    {
        let ghost pre = key_views(ks@);
        ks.push(ix.accounts[i].duplicate());
        i += 1;
        proof {
            assert(key_views(ks@) =~= pre.push(ix.accounts@[i - 1]@));
            assert(key_views(ix.accounts@.take(i as int)) =~= key_views(
                ix.accounts@.take(i as int - 1),
            ).push(ix.accounts@[i - 1]@));
        }
    }
    proof {
        assert(ix.accounts@.take(n as int) =~= ix.accounts@);
    }
    ks
}

/// A key stands in the collected instruction keys exactly when some
/// instruction references it.
pub proof fn lemma_all_instruction_keys_membership(ixs: Seq<Instruction>, k: Seq<u8>)
    ensures
        all_instruction_keys(ixs).contains(k) <==> exists|i: int, j: int|
            0 <= i < ixs.len() && 0 <= j < ixs[i].accounts@.len() && ixs[i].accounts@[j]@ == k,
    decreases ixs.len(),
{
    if ixs.len() > 0 {
        let pre = ixs.drop_last();
        let tail = key_views(ixs.last().accounts@);
        let whole = all_instruction_keys(ixs);
        lemma_all_instruction_keys_membership(pre, k);
        assert(forall|i: int| 0 <= i < pre.len() ==> #[trigger] pre[i] == ixs[i]);
        assert(whole == all_instruction_keys(pre) + tail);
        if whole.contains(k) {
            let p = choose|p: int| 0 <= p < whole.len() && whole[p] == k;
            if p < all_instruction_keys(pre).len() {
                assert(all_instruction_keys(pre)[p] == k);
                assert(all_instruction_keys(pre).contains(k));
                let (i, j) = choose|i: int, j: int|
                    0 <= i < pre.len() && 0 <= j < pre[i].accounts@.len() && pre[i].accounts@[j]@
                        == k;
                assert(ixs[i].accounts@[j]@ == k);
            } else {
                let j = p - all_instruction_keys(pre).len();
                assert(tail[j] == k);
                assert(ixs[ixs.len() - 1].accounts@[j]@ == k);
            }
        }
        if exists|i: int, j: int| 0 <= i < ixs.len() && 0 <= j < ixs[i].accounts@.len()
            && ixs[i].accounts@[j]@ == k {
            let (i, j) = choose|i: int, j: int|
                0 <= i < ixs.len() && 0 <= j < ixs[i].accounts@.len() && ixs[i].accounts@[j]@ == k;
            if i < ixs.len() - 1 {
                assert(pre[i].accounts@[j]@ == k);
                let p = choose|p: int|
                    0 <= p < all_instruction_keys(pre).len() && all_instruction_keys(pre)[p] == k;
                assert(whole[p] == k);
            } else {
                assert(tail[j] == k);
                assert(whole[all_instruction_keys(pre).len() + j] == k);
            }
        }
    }
}

/// However many instructions jointly reference a key, the planned fetch
/// list holds it at most once: the list is duplicate-free, and holds a key
/// exactly when some instruction references it and the cache does not hold
/// it.
pub proof fn lemma_dedup_across_instructions(ixs: Seq<Instruction>, dom: Set<Seq<u8>>)
    ensures
        distinct(missing_unique(all_instruction_keys(ixs), dom)),
        forall|k: Seq<u8>| #![auto]
            missing_unique(all_instruction_keys(ixs), dom).contains(k) <==> ((exists|i: int, j: int|
                0 <= i < ixs.len() && 0 <= j < ixs[i].accounts@.len() && ixs[i].accounts@[j]@ == k)
                && !dom.contains(k)),
{
    lemma_missing_unique_props(all_instruction_keys(ixs), dom);
    assert forall|k: Seq<u8>| true implies (all_instruction_keys(ixs).contains(k) <==> exists|
        i: int,
        j: int,
    |
        0 <= i < ixs.len() && 0 <= j < ixs[i].accounts@.len() && ixs[i].accounts@[j]@ == k) by {
        lemma_all_instruction_keys_membership(ixs, k);
    }
}

/// Fetching is idempotent: once a fetch planned against cache `m` has been
/// merged successfully into `m2`, planning the same keys against `m2`
/// requests nothing, and every requested key is cached.
pub proof fn lemma_fetch_then_refetch(
    m: Map<Seq<u8>, RecordView>,
    keys: Seq<Seq<u8>>,
    results: Seq<Option<RecordView>>,
    permissive: bool,
    m2: Map<Seq<u8>, RecordView>,
)
    requires
        results.len() == missing_unique(keys, m.dom()).len(),
        apply_fetch(m, missing_unique(keys, m.dom()), results, permissive) == Ok::<
            Map<Seq<u8>, RecordView>,
            Seq<u8>,
        >(m2),
    ensures
        missing_unique(keys, m2.dom()) == Seq::<Seq<u8>>::empty(),
        forall|k: Seq<u8>| #[trigger] keys.contains(k) ==> m2.dom().contains(k),
        forall|k: Seq<u8>| #[trigger] m.dom().contains(k) ==> m2.dom().contains(k),
    decreases keys.len(),
{
    let missing = missing_unique(keys, m.dom());
    lemma_missing_unique_props(keys, m.dom());
    lemma_apply_fetch_ok(m, missing, results, permissive, m2);
    assert forall|k: Seq<u8>| #[trigger] keys.contains(k) implies m2.dom().contains(k) by {
        if !m.dom().contains(k) {
            assert(missing.contains(k));
        }
    }
    assert forall|i: int| 0 <= i < keys.len() implies m2.dom().contains(#[trigger] keys[i]) by {
        assert(keys.contains(keys[i]));
    }
    lemma_fetch_idempotent(keys, m2.dom());
}

} // verus!
