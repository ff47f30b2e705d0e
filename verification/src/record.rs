//! Account records: what one fetched account holds.

use vstd::prelude::*;
use crate::addr::{Address, zero_address, ADDRESS_LEN};
use crate::util::clone_bytes;

verus! {

/// One account's state: balance, raw data, owner, executable flag and
/// metadata epoch. Replaced wholesale on re-fetch, never partially mutated.
#[derive(Debug)]
pub struct AccountRecord {
    pub balance: u64,
    pub data: Vec<u8>,
    pub owner: Address,
    pub executable: bool,
    pub metadata_epoch: u64,
}

/// Mathematical image of an `AccountRecord`.
#[verifier::ext_equal]
pub struct RecordView {
    pub balance: u64,
    pub data: Seq<u8>,
    pub owner: Seq<u8>,
    pub executable: bool,
    pub metadata_epoch: u64,
}

impl RecordView {
    /// Well-formed: the owner is a full address.
    pub open spec fn wf(self) -> bool {
        self.owner.len() == ADDRESS_LEN
    }
}

impl View for AccountRecord {
    type V = RecordView;

    open spec fn view(&self) -> RecordView {
        RecordView {
            balance: self.balance,
            data: self.data@,
            owner: self.owner@,
            executable: self.executable,
            metadata_epoch: self.metadata_epoch,
        }
    }
}

/// The zero-valued record materialized for a missing account in permissive
/// mode: no balance, empty data, the all-zero owner, not executable.
pub open spec fn zero_record() -> RecordView {
    RecordView {
        balance: 0,
        data: Seq::empty(),
        owner: zero_address(),
        executable: false,
        metadata_epoch: 0,
    }
}

impl AccountRecord {
    /// Well-formed: the owner is a full address.
    pub open spec fn wf(self) -> bool {
        self@.wf()
    }

    /// Assembles a record from its parts.
    pub fn new(balance: u64, data: Vec<u8>, owner: Address, executable: bool, metadata_epoch: u64)
        -> (r: AccountRecord)
        ensures
            r@ == (RecordView {
                balance,
                data: data@,
                owner: owner@,
                executable,
                metadata_epoch,
            }),
    {
        AccountRecord { balance, data, owner, executable, metadata_epoch }
    }

    /// An identical copy.
    pub fn duplicate(&self) -> (r: AccountRecord)
        ensures
            r@ == self@,
    {
        AccountRecord {
            balance: self.balance,
            data: clone_bytes(&self.data),
            owner: self.owner.duplicate(),
            executable: self.executable,
            metadata_epoch: self.metadata_epoch,
        }
    }
}

impl Default for AccountRecord {
    /// The zero-valued record.
    fn default() -> (r: AccountRecord)
        ensures
            r@ == zero_record(),
            r.wf(),
    {
        let r = AccountRecord {
            balance: 0,
            data: Vec::new(),
            owner: Address::default(),
            executable: false,
            metadata_epoch: 0,
        };
        proof {
            assert(r@.data =~= zero_record().data);
        }
        r
    }
}

} // verus!
