//! Two-pass resolution of cached executable accounts into bytecode
//! registrations for the execution registry.
//!
//! Pass one (`collect_program_data_keys`) walks the cache and collects the
//! pointer targets of indirect-loader programs that are not cached yet; the
//! caller fetches them. Pass two (`resolve_programs`) extracts and validates
//! bytecode and returns the registrations; it never runs before the fetch,
//! so a missing pointer target is a hard error, never a silent skip.

use vstd::prelude::*;
use crate::addr::{classify, classify_owner, Address, LoaderKind};
use crate::errors::{ErrorView, MalformedReason, ProgramDataReason, ProgramDataReasonView, RpcError};
use crate::record::RecordView;
use crate::store::{keys_wf, key_views, RpcAccountStore};
use crate::util::copy_range;
use crate::validate::{elf_error, elf_ok, validate_elf};

verus! {

/// Offset of the embedded program-data pointer in an indirect program
/// account's data.
pub const POINTER_OFFSET: usize = 4;

/// One past the pointer's last byte.
pub const POINTER_END: usize = 36;

/// Length of the header that precedes bytecode in a pointed-to account.
pub const BYTECODE_HEADER_LEN: usize = 45;

/// The embedded pointer of an indirect program account's data.
pub open spec fn pointer_of(data: Seq<u8>) -> Seq<u8> {
    data.subrange(POINTER_OFFSET as int, POINTER_END as int)
}

/// One resolved program, ready for the execution registry: address, raw
/// bytecode, and the owning loader.
#[derive(Debug)]
pub struct ProgramRegistration {
    pub program: Address,
    pub bytecode: Vec<u8>,
    pub owner: Address,
}

/// Mathematical image of a registration.
#[verifier::ext_equal]
pub struct RegView {
    pub program: Seq<u8>,
    pub bytecode: Seq<u8>,
    pub owner: Seq<u8>,
}

impl View for ProgramRegistration {
    type V = RegView;

    open spec fn view(&self) -> RegView {
        RegView { program: self.program@, bytecode: self.bytecode@, owner: self.owner@ }
    }
}

/// The views of a registration list.
pub open spec fn reg_views(s: Seq<ProgramRegistration>) -> Seq<RegView> {
    s.map_values(|r: ProgramRegistration| r@)
}

/// What pass one does with one cached entry: the pointer target to fetch,
/// if any, or the error that aborts the scan.
pub open spec fn scan_one(
    k: Seq<u8>,
    rec: RecordView,
    m: Map<Seq<u8>, RecordView>,
) -> Result<Option<Seq<u8>>, ErrorView> {
    if rec.executable && classify(rec.owner) is Indirect {
        if rec.data.len() < POINTER_END {
            Err(ErrorView::MalformedProgram {
                program: k,
                reason: MalformedReason::TooShortForPointer { len: rec.data.len() as usize },
            })
        } else {
            let p = pointer_of(rec.data);
            if m.dom().contains(p) {
                Ok(None)
            } else {
                Ok(Some(p))
            }
        }
    } else {
        Ok(None)
    }
}

/// Pass one over a cache snapshot: the pointer targets still to fetch, in
/// entry order (duplicates allowed; the fetch planner removes them), or the
/// first error.
pub open spec fn pointer_scan(
    entries: Seq<(Seq<u8>, RecordView)>,
    m: Map<Seq<u8>, RecordView>,
) -> Result<Seq<Seq<u8>>, ErrorView>
    decreases entries.len(),
{
    if entries.len() == 0 {
        Ok(Seq::empty())
    } else {
        match pointer_scan(entries.drop_last(), m) {
            Ok(pre) => match scan_one(entries.last().0, entries.last().1, m) {
                Ok(Option::Some(p)) => Ok(pre.push(p)),
                Ok(Option::None) => Ok(pre),
                Err(e) => Err(e),
            },
            Err(e) => Err(e),
        }
    }
}

/// Once a prefix of the scan has failed, the whole scan fails the same way.
pub proof fn lemma_pointer_scan_err_extend(
    entries: Seq<(Seq<u8>, RecordView)>,
    m: Map<Seq<u8>, RecordView>,
    j: int,
)
    requires
        0 <= j <= entries.len(),
        pointer_scan(entries.take(j), m) is Err,
    ensures
        pointer_scan(entries, m) == pointer_scan(entries.take(j), m),
    decreases entries.len() - j,
{
    if j < entries.len() {
        assert(entries.take(j + 1).drop_last() =~= entries.take(j));
        lemma_pointer_scan_err_extend(entries, m, j + 1);
    } else {
        assert(entries.take(j) =~= entries);
    }
}

/// What pass two does with one cached entry: a registration, nothing (not a
/// program this system understands), or the error that aborts resolution.
pub open spec fn resolve_one(
    k: Seq<u8>,
    rec: RecordView,
    m: Map<Seq<u8>, RecordView>,
    validate: bool,
) -> Result<Option<RegView>, ErrorView> {
    if !rec.executable {
        Ok(None)
    } else {
        match classify(rec.owner) {
            LoaderKind::Direct => {
                if validate && !elf_ok(rec.data) {
                    Err(ErrorView::InvalidProgramData {
                        program: k,
                        reason: ProgramDataReasonView::Validation(elf_error(rec.data)),
                    })
                } else {
                    Ok(Some(RegView { program: k, bytecode: rec.data, owner: rec.owner }))
                }
            },
            LoaderKind::Indirect => {
                if rec.data.len() < POINTER_END {
                    Err(ErrorView::MalformedProgram {
                        program: k,
                        reason: MalformedReason::TooShortForPointer {
                            len: rec.data.len() as usize,
                        },
                    })
                } else {
                    let p = pointer_of(rec.data);
                    if !m.dom().contains(p) {
                        Err(ErrorView::InvalidProgramData {
                            program: k,
                            reason: ProgramDataReasonView::MissingAccount { pointer: p },
                        })
                    } else {
                        let pd = m[p];
                        if pd.data.len() <= BYTECODE_HEADER_LEN {
                            Err(ErrorView::InvalidProgramData {
                                program: k,
                                reason: ProgramDataReasonView::TooSmall {
                                    len: pd.data.len() as usize,
                                },
                            })
                        } else {
                            let code = pd.data.skip(BYTECODE_HEADER_LEN as int);
                            if validate && !elf_ok(code) {
                                Err(ErrorView::InvalidProgramData {
                                    program: k,
                                    reason: ProgramDataReasonView::Validation(elf_error(code)),
                                })
                            } else {
                                Ok(Some(RegView { program: k, bytecode: code, owner: rec.owner }))
                            }
                        }
                    }
                }
            },
            LoaderKind::Unknown => Ok(None),
        }
    }
}

/// Pass two over a cache snapshot: the registrations in entry order, or the
/// first error.
pub open spec fn resolutions(
    entries: Seq<(Seq<u8>, RecordView)>,
    m: Map<Seq<u8>, RecordView>,
    validate: bool,
) -> Result<Seq<RegView>, ErrorView>
    decreases entries.len(),
{
    if entries.len() == 0 {
        Ok(Seq::empty())
    } else {
        match resolutions(entries.drop_last(), m, validate) {
            Ok(pre) => match resolve_one(entries.last().0, entries.last().1, m, validate) {
                Ok(Option::Some(r)) => Ok(pre.push(r)),
                Ok(Option::None) => Ok(pre),
                Err(e) => Err(e),
            },
            Err(e) => Err(e),
        }
    }
}

/// Once a prefix of resolution has failed, the whole resolution fails the
/// same way.
pub proof fn lemma_resolutions_err_extend(
    entries: Seq<(Seq<u8>, RecordView)>,
    m: Map<Seq<u8>, RecordView>,
    validate: bool,
    j: int,
)
    requires
        0 <= j <= entries.len(),
        resolutions(entries.take(j), m, validate) is Err,
    ensures
        resolutions(entries, m, validate) == resolutions(entries.take(j), m, validate),
    decreases entries.len() - j,
{
    if j < entries.len() {
        assert(entries.take(j + 1).drop_last() =~= entries.take(j));
        lemma_resolutions_err_extend(entries, m, validate, j + 1);
    } else {
        assert(entries.take(j) =~= entries);
    }
}

impl RpcAccountStore {
    /// Pass one: collects the program-data pointers of cached
    /// indirect-loader programs whose targets are not cached yet. Fails
    /// with `MalformedProgram` on the first indirect program account too
    /// short to embed a pointer.
    pub fn collect_program_data_keys(&self) -> (r: Result<Vec<Address>, RpcError>)
        requires
            self.wf(),
        ensures
            r matches Ok(v) ==> pointer_scan(self.entries(), self.accounts()) == Ok::<_, ErrorView>(
                key_views(v@),
            ) && keys_wf(v@),
            r matches Err(e) ==> (pointer_scan(self.entries(), self.accounts()) matches Err(ev)
                && e@ == ev),
    {
        let ghost entries = self.entries();
        let ghost m = self.accounts();
        let mut v: Vec<Address> = Vec::new();
        let n = self.cache.len();
        let mut i: usize = 0;
        proof {
            assert(entries.take(0) =~= Seq::<(Seq<u8>, RecordView)>::empty());
            assert(key_views(v@) =~= Seq::<Seq<u8>>::empty());
        }
        while i < n
            invariant
                n == entries.len(),
                entries == self.entries(),
                m == self.accounts(),
                self.wf(),
                i <= n,
                keys_wf(v@),
                pointer_scan(entries.take(i as int), m) == Ok::<_, ErrorView>(key_views(v@)),
            decreases n - i,
        {
            let rec = self.cache.record_at(i);
            let ghost pre = key_views(v@);
            if rec.executable && matches!(classify_owner(&rec.owner), LoaderKind::Indirect) {
                if rec.data.len() < POINTER_END {
                    let e = RpcError::MalformedProgram {
                        program: self.cache.address_at(i).duplicate(),
                        reason: MalformedReason::TooShortForPointer { len: rec.data.len() },
                    };
                    proof {
                        assert(entries.take(i as int + 1).drop_last() =~= entries.take(i as int));
                        assert(entries.take(i as int + 1).last() == entries[i as int]);
                        assert(pointer_scan(entries.take(i as int + 1), m) is Err);
                        lemma_pointer_scan_err_extend(entries, m, i as int + 1);
                    }
                    return Err(e);
                }
                let pbytes = copy_range(&rec.data, POINTER_OFFSET, POINTER_END);
                let p = Address::from_full_bytes(pbytes);
                if !self.cache.contains(&p) {
                    v.push(p);
                    proof {
                        assert(key_views(v@) =~= pre.push(pointer_of(entries[i as int].1.data)));
                    }
                }
            }
            i += 1;
            proof {
                assert(entries.take(i as int).drop_last() =~= entries.take(i as int - 1));
                assert(entries.take(i as int).last() == entries[i as int - 1]);
            }
        }
        proof {
            assert(entries.take(n as int) =~= entries);
        }
        Ok(v)
    }

    /// Pass two: turns every cached executable account owned by a known
    /// loader into a registration. Direct-loader bytecode is the whole
    /// account data; indirect-loader bytecode is the pointed-to account's
    /// data past the fixed header. Fails on the first malformed program,
    /// missing or short pointer target, or (when validating) bytecode that
    /// fails structural validation. Executable accounts with an unknown
    /// owner are skipped.
    pub fn resolve_programs(&self) -> (r: Result<Vec<ProgramRegistration>, RpcError>)
        requires
            self.wf(),
        ensures
            r matches Ok(regs) ==> resolutions(self.entries(), self.accounts(), self.validating())
                == Ok::<_, ErrorView>(reg_views(regs@)) && (forall|j: int|
                0 <= j < regs@.len() ==> (#[trigger] regs@[j]).program.wf() && regs@[j].owner.wf()),
            r matches Err(e) ==> (resolutions(self.entries(), self.accounts(), self.validating())
                matches Err(ev) && e@ == ev),
    {
        let ghost entries = self.entries();
        let ghost m = self.accounts();
        let ghost validate = self.validating();
        let mut regs: Vec<ProgramRegistration> = Vec::new();
        let n = self.cache.len();
        let mut i: usize = 0;
        proof {
            assert(entries.take(0) =~= Seq::<(Seq<u8>, RecordView)>::empty());
            assert(reg_views(regs@) =~= Seq::<RegView>::empty());
        }
        while i < n
            invariant
                n == entries.len(),
                entries == self.entries(),
                m == self.accounts(),
                validate == self.validating(),
                self.wf(),
                i <= n,
                forall|j: int| 0 <= j < regs@.len() ==> (#[trigger] regs@[j]).program.wf()
                    && regs@[j].owner.wf(),
                resolutions(entries.take(i as int), m, validate) == Ok::<_, ErrorView>(
                    reg_views(regs@),
                ),
            decreases n - i,
        {
            let ghost pre = reg_views(regs@);
            let ghost stepped = entries.take(i as int + 1);
            proof {
                assert(stepped.drop_last() =~= entries.take(i as int));
                assert(stepped.last() == entries[i as int]);
            }
            let rec = self.cache.record_at(i);
            if rec.executable {
                match classify_owner(&rec.owner) {
                    LoaderKind::Direct => {
                        if self.validate_programs {
                            if let Err(ve) = validate_elf(rec.data.as_slice()) {
                                let e = RpcError::InvalidProgramData {
                                    program: self.cache.address_at(i).duplicate(),
                                    reason: ProgramDataReason::Validation(ve),
                                };
                                proof {
                                    lemma_resolutions_err_extend(entries, m, validate, i as int + 1);
                                }
                                return Err(e);
                            }
                        }
                        regs.push(ProgramRegistration {
                            program: self.cache.address_at(i).duplicate(),
                            bytecode: copy_range(&rec.data, 0, rec.data.len()),
                            owner: rec.owner.duplicate(),
                        });
                        proof {
                            assert(entries[i as int].1.data.subrange(
                                0,
                                entries[i as int].1.data.len() as int,
                            ) =~= entries[i as int].1.data);
                            assert(reg_views(regs@) =~= pre.push(
                                resolve_one(entries[i as int].0, entries[i as int].1, m, validate)->Ok_0->Some_0,
                            ));
                        }
                    },
                    LoaderKind::Indirect => {
                        if rec.data.len() < POINTER_END {
                            let e = RpcError::MalformedProgram {
                                program: self.cache.address_at(i).duplicate(),
                                reason: MalformedReason::TooShortForPointer { len: rec.data.len() },
                            };
                            proof {
                                lemma_resolutions_err_extend(entries, m, validate, i as int + 1);
                            }
                            return Err(e);
                        }
                        let pbytes = copy_range(&rec.data, POINTER_OFFSET, POINTER_END);
                        let p = Address::from_full_bytes(pbytes);
                        match self.cache.get(&p) {
                            None => {
                                let e = RpcError::InvalidProgramData {
                                    program: self.cache.address_at(i).duplicate(),
                                    reason: ProgramDataReason::MissingAccount { pointer: p },
                                };
                                proof {
                                    lemma_resolutions_err_extend(entries, m, validate, i as int + 1);
                                }
                                return Err(e);
                            },
                            Some(pd) => {
                                if pd.data.len() <= BYTECODE_HEADER_LEN {
                                    let e = RpcError::InvalidProgramData {
                                        program: self.cache.address_at(i).duplicate(),
                                        reason: ProgramDataReason::TooSmall { len: pd.data.len() },
                                    };
                                    proof {
                                        lemma_resolutions_err_extend(
                                            entries,
                                            m,
                                            validate,
                                            i as int + 1,
                                        );
                                    }
                                    return Err(e);
                                }
                                let code = copy_range(&pd.data, BYTECODE_HEADER_LEN, pd.data.len());
                                proof {
                                    assert(code@ =~= m[pointer_of(entries[i as int].1.data)].data.skip(
                                        BYTECODE_HEADER_LEN as int,
                                    ));
                                }
                                if self.validate_programs {
                                    if let Err(ve) = validate_elf(code.as_slice()) {
                                        let e = RpcError::InvalidProgramData {
                                            program: self.cache.address_at(i).duplicate(),
                                            reason: ProgramDataReason::Validation(ve),
                                        };
                                        proof {
                                            lemma_resolutions_err_extend(
                                                entries,
                                                m,
                                                validate,
                                                i as int + 1,
                                            );
                                        }
                                        return Err(e);
                                    }
                                }
                                regs.push(ProgramRegistration {
                                    program: self.cache.address_at(i).duplicate(),
                                    bytecode: code,
                                    owner: rec.owner.duplicate(),
                                });
                                proof {
                                    assert(reg_views(regs@) =~= pre.push(
                                        resolve_one(
                                            entries[i as int].0,
                                            entries[i as int].1,
                                            m,
                                            validate,
                                        )->Ok_0->Some_0,
                                    ));
                                }
                            },
                        }
                    },
                    LoaderKind::Unknown => {
                    },
                }
            }
            i += 1;
            proof {
                assert(entries.take(i as int).drop_last() =~= entries.take(i as int - 1));
                assert(entries.take(i as int).last() == entries[i as int - 1]);
            }
        }
        proof {
            assert(entries.take(n as int) =~= entries);
        }
        Ok(regs)
    }
}

/// What a successful resolution owes each executable entry: a
/// direct-loader program is registered with exactly its account data as
/// bytecode; an indirect-loader program is registered with exactly the
/// pointed-to account's data past the header, and its pointer target is
/// present and long enough.
pub proof fn lemma_resolutions_ok_entry(
    entries: Seq<(Seq<u8>, RecordView)>,
    m: Map<Seq<u8>, RecordView>,
    validate: bool,
    rs: Seq<RegView>,
    i: int,
)
    requires
        resolutions(entries, m, validate) == Ok::<Seq<RegView>, ErrorView>(rs),
        0 <= i < entries.len(),
        entries[i].1.executable,
    ensures
        classify(entries[i].1.owner) is Direct ==> rs.contains(
            RegView {
                program: entries[i].0,
                bytecode: entries[i].1.data,
                owner: entries[i].1.owner,
            },
        ),
        classify(entries[i].1.owner) is Indirect ==> {
            &&& entries[i].1.data.len() >= POINTER_END
            &&& m.dom().contains(pointer_of(entries[i].1.data))
            &&& m[pointer_of(entries[i].1.data)].data.len() > BYTECODE_HEADER_LEN
            &&& rs.contains(
                RegView {
                    program: entries[i].0,
                    bytecode: m[pointer_of(entries[i].1.data)].data.skip(
                        BYTECODE_HEADER_LEN as int,
                    ),
                    owner: entries[i].1.owner,
                },
            )
        },
    decreases entries.len(),
{
    let pre = entries.drop_last();
    let pres = resolutions(pre, m, validate)->Ok_0;
    assert(resolutions(pre, m, validate) == Ok::<Seq<RegView>, ErrorView>(pres));
    assert(forall|j: int| 0 <= j < pre.len() ==> #[trigger] pre[j] == entries[j]);
    if i == entries.len() - 1 {
        let e = entries.last();
        let step = resolve_one(e.0, e.1, m, validate);
        assert(step is Ok);
        if step->Ok_0 is Some {
            assert(rs == pres.push(step->Ok_0->Some_0));
            assert(rs[rs.len() - 1] == step->Ok_0->Some_0);
        }
    } else {
        lemma_resolutions_ok_entry(pre, m, validate, pres, i);
        let step = resolve_one(entries.last().0, entries.last().1, m, validate);
        assert(step is Ok);
        if classify(entries[i].1.owner) is Direct {
            let r = RegView {
                program: entries[i].0,
                bytecode: entries[i].1.data,
                owner: entries[i].1.owner,
            };
            let j = choose|j: int| 0 <= j < pres.len() && pres[j] == r;
            assert(rs[j] == r);
        }
        if classify(entries[i].1.owner) is Indirect {
            let r = RegView {
                program: entries[i].0,
                bytecode: m[pointer_of(entries[i].1.data)].data.skip(BYTECODE_HEADER_LEN as int),
                owner: entries[i].1.owner,
            };
            let j = choose|j: int| 0 <= j < pres.len() && pres[j] == r;
            assert(rs[j] == r);
        }
    }
}

/// An indirect program whose data cannot embed a pointer, whose pointer
/// target is absent, or whose pointer target cannot cover the header never
/// resolves silently: the whole resolution errs.
pub proof fn lemma_resolutions_bad_entry_errs(
    entries: Seq<(Seq<u8>, RecordView)>,
    m: Map<Seq<u8>, RecordView>,
    validate: bool,
    i: int,
)
    requires
        0 <= i < entries.len(),
        entries[i].1.executable,
        classify(entries[i].1.owner) is Indirect,
        entries[i].1.data.len() < POINTER_END || !m.dom().contains(pointer_of(entries[i].1.data))
            || m[pointer_of(entries[i].1.data)].data.len() <= BYTECODE_HEADER_LEN,
    ensures
        resolutions(entries, m, validate) is Err,
{
    if resolutions(entries, m, validate) is Ok {
        lemma_resolutions_ok_entry(
            entries,
            m,
            validate,
            resolutions(entries, m, validate)->Ok_0,
            i,
        );
    }
}

/// On a cache of one indirect program too short to embed its pointer,
/// resolution reports exactly `MalformedProgram` for that program, and
/// registers nothing.
pub proof fn lemma_short_indirect_program(
    k: Seq<u8>,
    rec: RecordView,
    m: Map<Seq<u8>, RecordView>,
    validate: bool,
)
    requires
        rec.executable,
        classify(rec.owner) is Indirect,
        rec.data.len() < POINTER_END,
    ensures
        resolutions(seq![(k, rec)], m, validate) == Err::<Seq<RegView>, ErrorView>(
            ErrorView::MalformedProgram {
                program: k,
                reason: MalformedReason::TooShortForPointer { len: rec.data.len() as usize },
            },
        ),
{
    let s = seq![(k, rec)];
    assert(s.len() == 1);
    assert(s.drop_last() =~= Seq::<(Seq<u8>, RecordView)>::empty());
    assert(resolutions(Seq::<(Seq<u8>, RecordView)>::empty(), m, validate) == Ok::<
        Seq<RegView>,
        ErrorView,
    >(Seq::<RegView>::empty()));
    assert(s.last() == (k, rec));
}

/// On a cache of one indirect program whose pointer target is absent,
/// resolution reports exactly `InvalidProgramData` naming the pointer.
pub proof fn lemma_missing_pointer_target(
    k: Seq<u8>,
    rec: RecordView,
    m: Map<Seq<u8>, RecordView>,
    validate: bool,
)
    requires
        rec.executable,
        classify(rec.owner) is Indirect,
        rec.data.len() >= POINTER_END,
        !m.dom().contains(pointer_of(rec.data)),
    ensures
        resolutions(seq![(k, rec)], m, validate) == Err::<Seq<RegView>, ErrorView>(
            ErrorView::InvalidProgramData {
                program: k,
                reason: ProgramDataReasonView::MissingAccount { pointer: pointer_of(rec.data) },
            },
        ),
{
    let s = seq![(k, rec)];
    assert(s.len() == 1);
    assert(s.drop_last() =~= Seq::<(Seq<u8>, RecordView)>::empty());
    assert(resolutions(Seq::<(Seq<u8>, RecordView)>::empty(), m, validate) == Ok::<
        Seq<RegView>,
        ErrorView,
    >(Seq::<RegView>::empty()));
    assert(s.last() == (k, rec));
}

} // verus!
