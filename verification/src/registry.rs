//! The certificate registry: one immutable record per verified carbon
//! reduction, a mutable current holder per certificate, secondary indices
//! keyed by farmer and by verifier, and aggregate counters kept equal to a
//! fold over the live records.
//!
//! The registry never performs the outbound mint on the linked fungible
//! ledger itself: a successful certificate mint returns the requested
//! [`LedgerMintCall`] to the host, which performs it best-effort and
//! discards its outcome.

use vstd::prelude::*;
use vstd::set_lib::lemma_len_subset;
use crate::auth::AuthContext;
use crate::auth::Principal;
use crate::index_list::unique_ids;
use crate::index_list::position_of;
use crate::index_list::swap_pop;
use crate::index_list::remove_id;
use crate::index_list::lemma_push_fresh_id;
use crate::query::SortBy;
use crate::query::RankedId;
use crate::query::stable_sort;
use crate::query::ids_of;
use crate::query::page_of;
use crate::query::paginate_ids;
use crate::query::sort_ranked;
use crate::query::lemma_stable_sort_len;

verus! {

broadcast use vstd::seq_lib::group_filter_ensures;

/// Failures of the certificate registry.
#[derive(Copy, Clone, Debug, Eq, PartialEq)]
pub enum ContractError {
    /// The certificate id already names a live record, or the registry was
    /// asked to initialize twice.
    AlreadyExists,
    /// No live record names this certificate id.
    NotFound,
    /// The record's quantities are invalid: zero hectares or zero CO2e.
    InvalidInput,
    /// The declared sender is not the certificate's current holder.
    NotOwner,
    /// The acting principal has not proven control, or is not the admin.
    NotAuthorized,
}

/// The immutable data of one certificate of verified emission reduction.
#[derive(Clone, Debug, Eq, PartialEq)]
pub struct VerificationRecord {
    /// The verifier that attests to the reduction and mints the certificate.
    pub verifier_address: Principal,
    /// The farmer the certificate benefits; its initial holder.
    pub farmer_address: Principal,
    /// The unburned area in hectares; positive in every live record.
    pub hectares_not_burned: u32,
    /// The reduced emissions in tons of CO2e; positive in every live record.
    pub co2e_tons: u128,
    /// The fixed-size hash committing to the off-chain evidence report.
    pub metadata_hash: Vec<u8>,
}

impl VerificationRecord {
    /// The evidence commitment is exactly 32 bytes.
    pub open spec fn well_formed(self) -> bool {
        self.metadata_hash@.len() == 32
    }
}

/// Emitted by a successful certificate mint.
#[derive(Clone, Copy, Debug, PartialEq, Eq, Structural)]
pub struct CertificateMintedEvent {
    pub certificate_id: u32,
    pub farmer: Principal,
    pub verifier: Principal,
    pub tons_minted: u128,
    pub timestamp: u64,
}

/// Emitted by a successful ownership transfer.
#[derive(Clone, Copy, Debug, PartialEq, Eq, Structural)]
pub struct CertificateTransferredEvent {
    pub certificate_id: u32,
    pub from: Principal,
    pub to: Principal,
}

/// Emitted by a successful burn.
#[derive(Clone, Copy, Debug, PartialEq, Eq, Structural)]
pub struct CertificateBurnedEvent {
    pub certificate_id: u32,
    pub burned_by: Principal,
    pub co2e_tons_retired: u128,
}

/// One entry of the registry's event log.
#[derive(Clone, Copy, Debug, PartialEq, Eq, Structural)]
pub enum RegistryEvent {
    Minted(CertificateMintedEvent),
    Transferred(CertificateTransferredEvent),
    Burned(CertificateBurnedEvent),
}

/// The outbound fungible-ledger mint that a successful certificate mint
/// asks the host to perform, best-effort, once the registry has committed.
#[derive(Clone, Copy, Debug, PartialEq, Eq, Structural)]
pub struct LedgerMintCall {
    /// The beneficiary to credit: the certificate's farmer.
    pub to: Principal,
    /// The minted CO2e tons reinterpreted as the ledger's signed amount.
    pub amount: i128,
}

/// A live certificate: its id, its immutable record, and its current
/// holder.  Holding the owner inside the entry makes ownership exist
/// exactly as long as the record does.
struct CertEntry {
    id: u32,
    record: VerificationRecord,
    owner: Principal,
}

/// The membership list of one principal in a secondary index.
struct IndexEntry {
    key: Principal,
    ids: Vec<u32>,
}

spec fn certs_unique(s: Seq<CertEntry>) -> bool {
    forall|i: int, j: int| 0 <= i < j < s.len() ==> s[i].id != s[j].id
}

spec fn cert_has(s: Seq<CertEntry>, id: u32) -> bool {
    exists|i: int| 0 <= i < s.len() && s[i].id == id
}

spec fn cert_at(s: Seq<CertEntry>, id: u32) -> CertEntry {
    s[choose|i: int| 0 <= i < s.len() && s[i].id == id]
}

proof fn lemma_cert_at(s: Seq<CertEntry>, id: u32, i: int)
    requires
        certs_unique(s),
        0 <= i < s.len(),
        s[i].id == id,
    ensures
        cert_has(s, id),
        cert_at(s, id) == s[i],
{
    assert(cert_has(s, id)) by {
        assert(s[i].id == id);
    }
}

spec fn idx_unique(s: Seq<IndexEntry>) -> bool {
    forall|i: int, j: int| 0 <= i < j < s.len() ==> s[i].key != s[j].key
}

spec fn idx_has(s: Seq<IndexEntry>, p: Principal) -> bool {
    exists|i: int| 0 <= i < s.len() && s[i].key == p
}

spec fn idx_ids(s: Seq<IndexEntry>, p: Principal) -> Seq<u32> {
    if idx_has(s, p) {
        s[choose|i: int| 0 <= i < s.len() && s[i].key == p].ids@
    } else {
        Seq::empty()
    }
}

proof fn lemma_idx_ids_at(s: Seq<IndexEntry>, p: Principal, i: int)
    requires
        idx_unique(s),
        0 <= i < s.len(),
        s[i].key == p,
    ensures
        idx_has(s, p),
        idx_ids(s, p) == s[i].ids@,
{
    assert(idx_has(s, p)) by {
        assert(s[i].key == p);
    }
}

/// The CO2e tons summed over a run of live certificates.
spec fn co2e_sum(s: Seq<CertEntry>) -> int
    decreases s.len(),
{
    if s.len() == 0 {
        0
    } else {
        co2e_sum(s.drop_last()) + s.last().record.co2e_tons
    }
}

/// A record the registry accepted: positive quantities, well-formed hash.
spec fn valid_record(r: VerificationRecord) -> bool {
    &&& r.hectares_not_burned != 0
    &&& r.co2e_tons != 0
    &&& r.well_formed()
}

/// `b` holds the same certificates, indices, counters and event log as
/// `a`; only the configuration singletons may differ.
pub open spec fn same_store(a: CarbonCertifier, b: CarbonCertifier) -> bool {
    &&& forall|id: u32| #[trigger] b.contains_cert(id) == a.contains_cert(id)
    &&& forall|id: u32| a.contains_cert(id) ==> #[trigger] b.record_of(id) == a.record_of(id)
    &&& forall|id: u32| a.contains_cert(id) ==> #[trigger] b.owner_of(id) == a.owner_of(id)
    &&& forall|p: Principal| #[trigger] b.farmer_ids(p) == a.farmer_ids(p)
    &&& forall|p: Principal| #[trigger] b.verifier_ids(p) == a.verifier_ids(p)
    &&& b.total_certificates_of() == a.total_certificates_of()
    &&& b.total_co2e_of() == a.total_co2e_of()
    &&& b.events_log() == a.events_log()
}

/// The registry's whole state.
pub struct CarbonCertifier {
    admin: Option<Principal>,
    token_contract: Option<Principal>,
    certs: Vec<CertEntry>,
    farmer_index: Vec<IndexEntry>,
    verifier_index: Vec<IndexEntry>,
    total_certificates: u32,
    total_co2e: u128,
    events: Vec<RegistryEvent>,
}

impl CarbonCertifier {
    /// The admin, once `initialize` has set one.
    pub closed spec fn admin_of(self) -> Option<Principal> {
        self.admin
    }

    /// The linked fungible-ledger contract, once the admin has set one.
    pub closed spec fn token_contract_of(self) -> Option<Principal> {
        self.token_contract
    }

    /// Whether a live record names this certificate id.
    pub closed spec fn contains_cert(self, id: u32) -> bool {
        cert_has(self.certs@, id)
    }

    /// The immutable record of a live certificate.
    pub closed spec fn record_of(self, id: u32) -> VerificationRecord {
        cert_at(self.certs@, id).record
    }

    /// The current holder of a live certificate.
    pub closed spec fn owner_of(self, id: u32) -> Principal {
        cert_at(self.certs@, id).owner
    }

    /// The ids indexed under `p` as beneficiary, in index order.
    pub closed spec fn farmer_ids(self, p: Principal) -> Seq<u32> {
        idx_ids(self.farmer_index@, p)
    }

    /// The ids indexed under `p` as issuer, in index order.
    pub closed spec fn verifier_ids(self, p: Principal) -> Seq<u32> {
        idx_ids(self.verifier_index@, p)
    }

    /// The number of live certificates.
    pub closed spec fn live_count(self) -> int {
        self.certs@.len() as int
    }

    /// The CO2e tons summed over all live certificates.
    pub closed spec fn live_co2e(self) -> int {
        co2e_sum(self.certs@)
    }

    /// The stored aggregate certificate counter.
    pub closed spec fn total_certificates_of(self) -> u32 {
        self.total_certificates
    }

    /// The stored aggregate CO2e counter.
    pub closed spec fn total_co2e_of(self) -> u128 {
        self.total_co2e
    }

    /// The events emitted so far, oldest first.
    pub closed spec fn events_log(self) -> Seq<RegistryEvent> {
        self.events@
    }

    /// The key a live certificate is ranked by under `sort_by`.
    pub open spec fn sort_key_of(self, id: u32, sort_by: crate::query::SortBy) -> u128 {
        match sort_by {
            crate::query::SortBy::Co2eTons => self.record_of(id).co2e_tons,
            crate::query::SortBy::Hectares => self.record_of(id).hectares_not_burned as u128,
            crate::query::SortBy::CertificateId => id as u128,
        }
    }

    /// Whether a live certificate's stored CO2e lies in `[min_tons, max_tons]`.
    pub open spec fn co2e_in_range(self, id: u32, min_tons: u128, max_tons: u128) -> bool {
        min_tons <= self.record_of(id).co2e_tons <= max_tons
    }

    /// The ids of `l` whose stored CO2e lies in `[min_tons, max_tons]`, in
    /// the order of `l`.
    pub open spec fn co2e_filter(self, l: Seq<u32>, min_tons: u128, max_tons: u128) -> Seq<u32> {
        l.filter(|id: u32| self.co2e_in_range(id, min_tons, max_tons))
    }

    /// The ids of `p`'s certificates whose stored CO2e lies in
    /// `[min_tons, max_tons]`, in index order.
    pub open spec fn co2e_filtered_ids(self, p: Principal, min_tons: u128, max_tons: u128)
        -> Seq<u32> {
        self.co2e_filter(self.farmer_ids(p), min_tons, max_tons)
    }

    /// Each id of `p`'s farmer listing paired with its sort key, in index
    /// order.
    pub open spec fn ranked_farmer_ids(self, p: Principal, sort_by: SortBy) -> Seq<RankedId> {
        self.farmer_ids(p).map_values(|id: u32| RankedId { id, key: self.sort_key_of(id, sort_by) })
    }

    /// Well-formedness: ids and index keys unique, counters equal to the
    /// fold over live records, every live record valid, and an id stands in
    /// an index list exactly when a live record names that principal.
    pub closed spec fn wf(self) -> bool {
        &&& certs_unique(self.certs@)
        &&& idx_unique(self.farmer_index@)
        &&& idx_unique(self.verifier_index@)
        &&& self.total_certificates as int == self.certs@.len()
        &&& self.total_co2e as int == co2e_sum(self.certs@)
        &&& forall|i: int|
            0 <= i < self.certs@.len() ==> valid_record(#[trigger] self.certs@[i].record)
        &&& forall|i: int|
            0 <= i < self.certs@.len() ==> idx_ids(
                self.farmer_index@,
                (#[trigger] self.certs@[i]).record.farmer_address,
            ).contains(self.certs@[i].id)
        &&& forall|i: int|
            0 <= i < self.certs@.len() ==> idx_ids(
                self.verifier_index@,
                (#[trigger] self.certs@[i]).record.verifier_address,
            ).contains(self.certs@[i].id)
        &&& forall|p: Principal, id: u32|
            #[trigger] idx_ids(self.farmer_index@, p).contains(id) ==> cert_has(self.certs@, id)
                && cert_at(self.certs@, id).record.farmer_address == p
        &&& forall|p: Principal, id: u32|
            #[trigger] idx_ids(self.verifier_index@, p).contains(id) ==> cert_has(
                self.certs@,
                id,
            ) && cert_at(self.certs@, id).record.verifier_address == p
        &&& forall|p: Principal| unique_ids(#[trigger] idx_ids(self.farmer_index@, p))
        &&& forall|p: Principal| unique_ids(#[trigger] idx_ids(self.verifier_index@, p))
    }

    /// A fresh registry: no admin, no linked ledger, no certificates.
    pub fn new() -> (r: CarbonCertifier)
        ensures
            r.wf(),
            r.admin_of() is None,
            r.token_contract_of() is None,
            forall|id: u32| !(#[trigger] r.contains_cert(id)),
            forall|p: Principal| #[trigger] r.farmer_ids(p) == Seq::<u32>::empty(),
            forall|p: Principal| #[trigger] r.verifier_ids(p) == Seq::<u32>::empty(),
            r.total_certificates_of() == 0,
            r.total_co2e_of() == 0,
            r.events_log() == Seq::<RegistryEvent>::empty(),
    {
        CarbonCertifier {
            admin: None,
            token_contract: None,
            certs: Vec::new(),
            farmer_index: Vec::new(),
            verifier_index: Vec::new(),
            total_certificates: 0,
            total_co2e: 0,
            events: Vec::new(),
        }
    }

    /// Stores the admin; fails when one is already stored.
    pub fn initialize(&mut self, admin: Principal) -> (r: Result<(), ContractError>)
        requires
            old(self).wf(),
        ensures
            final(self).wf(),
            r == Ok::<(), ContractError>(()) <==> old(self).admin_of() is None,
            r is Err ==> r == Err::<(), ContractError>(ContractError::AlreadyExists)
                && *final(self) == *old(self),
            r is Ok ==> final(self).admin_of() == Some(admin),
            r is Ok ==> final(self).token_contract_of() == old(self).token_contract_of(),
            same_store(*old(self), *final(self)),
    {
        if self.admin.is_some() {
            return Err(ContractError::AlreadyExists);
        }
        self.admin = Some(admin);
        Ok(())
    }

    /// The stored admin; `NotFound` before initialization.
    pub fn get_admin(&self) -> (r: Result<Principal, ContractError>)
        ensures
            match r {
                Ok(a) => self.admin_of() == Some(a),
                Err(e) => self.admin_of() is None && e == ContractError::NotFound,
            },
    {
        match self.admin {
            Some(a) => Ok(a),
            None => Err(ContractError::NotFound),
        }
    }

    /// The stored aggregate certificate counter.
    pub fn get_total_certificates(&self) -> (r: u32)
        ensures
            r == self.total_certificates_of(),
    {
        self.total_certificates
    }

    /// The stored aggregate CO2e counter.
    pub fn get_total_co2e(&self) -> (r: u128)
        ensures
            r == self.total_co2e_of(),
    {
        self.total_co2e
    }

    /// The linked fungible-ledger contract, if the admin has set one.
    pub fn get_token_contract_id(&self) -> (r: Option<Principal>)
        ensures
            r == self.token_contract_of(),
    {
        self.token_contract
    }

    /// The events emitted so far, oldest first.
    pub fn events(&self) -> (r: &Vec<RegistryEvent>)
        ensures
            r@ == self.events_log(),
    {
        &self.events
    }

    /// The immutable record of a live certificate; `NotFound` otherwise.
    pub fn get_certificate_data(&self, certificate_id: u32) -> (r: Result<
        &VerificationRecord,
        ContractError,
    >)
        requires
            self.wf(),
        ensures
            match r {
                Ok(rec) => self.contains_cert(certificate_id) && *rec == self.record_of(
                    certificate_id,
                ),
                Err(e) => !self.contains_cert(certificate_id) && e == ContractError::NotFound,
            },
    {
        match Self::find_cert(&self.certs, certificate_id) {
            Some(i) => {
                proof {
                    lemma_cert_at(self.certs@, certificate_id, i as int);
                }
                Ok(&self.certs[i].record)
            },
            None => Err(ContractError::NotFound),
        }
    }

    /// The current holder of a live certificate; `NotFound` otherwise.
    pub fn get_certificate_owner(&self, certificate_id: u32) -> (r: Result<
        Principal,
        ContractError,
    >)
        requires
            self.wf(),
        ensures
            match r {
                Ok(owner) => self.contains_cert(certificate_id) && owner == self.owner_of(
                    certificate_id,
                ),
                Err(e) => !self.contains_cert(certificate_id) && e == ContractError::NotFound,
            },
    {
        match Self::find_cert(&self.certs, certificate_id) {
            Some(i) => {
                proof {
                    lemma_cert_at(self.certs@, certificate_id, i as int);
                }
                Ok(self.certs[i].owner)
            },
            None => Err(ContractError::NotFound),
        }
    }

    /// Stores the linked fungible-ledger contract.  Demands proof of
    /// control of `admin`, which must be the stored admin.
    pub fn set_token_contract_id(&mut self, auth: &AuthContext, admin: Principal,
        token_id: Principal) -> (r: Result<(), ContractError>)
        requires
            old(self).wf(),
        ensures
            final(self).wf(),
            r == Ok::<(), ContractError>(()) <==> auth.authorizes(admin) && old(self).admin_of()
                == Some(admin),
            r is Err ==> r == Err::<(), ContractError>(ContractError::NotAuthorized)
                && *final(self) == *old(self),
            r is Ok ==> final(self).token_contract_of() == Some(token_id),
            r is Ok ==> final(self).admin_of() == old(self).admin_of(),
            same_store(*old(self), *final(self)),
    {
        if !auth.allows(admin) {
            return Err(ContractError::NotAuthorized);
        }
        match self.admin {
            Some(stored) => {
                if stored != admin {
                    return Err(ContractError::NotAuthorized);
                }
            },
            None => {
                return Err(ContractError::NotAuthorized);
            },
        }
        self.token_contract = Some(token_id);
        Ok(())
    }

    /// Locates a certificate id in the store.
    fn find_cert(certs: &Vec<CertEntry>, id: u32) -> (r: Option<usize>)
        ensures
            match r {
                Some(i) => i < certs@.len() && certs@[i as int].id == id,
                None => !cert_has(certs@, id),
            },
    {
        let mut i: usize = 0;
        while i < certs.len()
            invariant
                i <= certs@.len(),
                forall|k: int| 0 <= k < i ==> certs@[k].id != id,
            decreases certs@.len() - i,
        {
            if certs[i].id == id {
                return Some(i);
            }
            i += 1;
        }
        None
    }

    /// Locates a principal's entry in an index.
    fn find_index_entry(entries: &Vec<IndexEntry>, p: Principal) -> (r: Option<usize>)
        ensures
            match r {
                Some(i) => i < entries@.len() && entries@[i as int].key == p,
                None => !idx_has(entries@, p),
            },
    {
        let mut i: usize = 0;
        while i < entries.len()
            invariant
                i <= entries@.len(),
                forall|k: int| 0 <= k < i ==> entries@[k].key != p,
            decreases entries@.len() - i,
        {
            if entries[i].key == p {
                return Some(i);
            }
            i += 1;
        }
        None
    }

    /// Appends `id` to the list indexed under `p`, creating the entry when
    /// the principal had none.
    fn index_add(entries: &mut Vec<IndexEntry>, p: Principal, id: u32)
        requires
            idx_unique(old(entries)@),
        ensures
            idx_unique(final(entries)@),
            idx_ids(final(entries)@, p) == idx_ids(old(entries)@, p).push(id),
            forall|q: Principal|
                q != p ==> #[trigger] idx_ids(final(entries)@, q) == idx_ids(old(entries)@, q),
    {
        let ghost s = entries@;
        match Self::find_index_entry(entries, p) {
            Some(f) => {
                proof {
                    lemma_idx_ids_at(s, p, f as int);
                }
                let e = &mut entries[f];
                e.ids.push(id);
                proof {
                    lemma_idx_update_frame(s, f as int, entries@[f as int]);
                }
            },
            None => {
                let mut ids: Vec<u32> = Vec::new();
                ids.push(id);
                let entry = IndexEntry { key: p, ids };
                proof {
                    assert(entry.ids@ =~= idx_ids(s, p).push(id));
                }
                entries.push(entry);
                proof {
                    lemma_idx_push_frame(s, entry);
                }
            },
        }
    }

    /// Mints a new certificate.  Demands proof of control of the record's
    /// verifier; the quantities must be positive and the id free.  On
    /// success the record is persisted, the farmer becomes the initial
    /// holder, both indices and both counters grow, the event is logged,
    /// and, when a fungible ledger is linked, the requested outbound mint
    /// is returned for the host to perform best-effort — its outcome never
    /// rolls the certificate back.
    pub fn mint_certificate(&mut self, auth: &AuthContext, certificate_id: u32,
        record: VerificationRecord, timestamp: u64) -> (r: Result<
        Option<LedgerMintCall>,
        ContractError,
    >)
        requires
            old(self).wf(),
            record.well_formed(),
            auth.authorizes(record.verifier_address) && record.hectares_not_burned != 0
                && record.co2e_tons != 0 && !old(self).contains_cert(certificate_id) ==> old(
                self,
            ).live_count() < u32::MAX && old(self).live_co2e() + record.co2e_tons <= u128::MAX,
        ensures
            final(self).wf(),
            r is Err ==> *final(self) == *old(self),
            r == Err::<Option<LedgerMintCall>, ContractError>(ContractError::NotAuthorized)
                <==> !auth.authorizes(record.verifier_address),
            r == Err::<Option<LedgerMintCall>, ContractError>(ContractError::InvalidInput)
                <==> auth.authorizes(record.verifier_address) && (record.hectares_not_burned == 0
                || record.co2e_tons == 0),
            r == Err::<Option<LedgerMintCall>, ContractError>(ContractError::AlreadyExists)
                <==> auth.authorizes(record.verifier_address) && record.hectares_not_burned != 0
                && record.co2e_tons != 0 && old(self).contains_cert(certificate_id),
            r is Ok <==> auth.authorizes(record.verifier_address) && record.hectares_not_burned
                != 0 && record.co2e_tons != 0 && !old(self).contains_cert(certificate_id),
            r is Ok ==> r == Ok::<Option<LedgerMintCall>, ContractError>(
                if old(self).token_contract_of() is Some {
                    Some(
                        LedgerMintCall {
                            to: record.farmer_address,
                            amount: record.co2e_tons as i128,
                        },
                    )
                } else {
                    None
                },
            ),
            r is Ok ==> final(self).contains_cert(certificate_id) && final(self).record_of(
                certificate_id,
            ) == record && final(self).owner_of(certificate_id) == record.farmer_address,
            r is Ok ==> forall|x: u32|
                x != certificate_id ==> #[trigger] final(self).contains_cert(x) == old(
                    self,
                ).contains_cert(x),
            r is Ok ==> forall|x: u32|
                x != certificate_id && old(self).contains_cert(x) ==> #[trigger] final(self).record_of(x) == old(self).record_of(x) && final(self).owner_of(x) == old(
                    self,
                ).owner_of(x),
            r is Ok ==> final(self).farmer_ids(record.farmer_address) == old(self).farmer_ids(
                record.farmer_address,
            ).push(certificate_id),
            r is Ok ==> forall|p: Principal|
                p != record.farmer_address ==> #[trigger] final(self).farmer_ids(p) == old(
                    self,
                ).farmer_ids(p),
            r is Ok ==> final(self).verifier_ids(record.verifier_address) == old(
                self,
            ).verifier_ids(record.verifier_address).push(certificate_id),
            r is Ok ==> forall|p: Principal|
                p != record.verifier_address ==> #[trigger] final(self).verifier_ids(p) == old(
                    self,
                ).verifier_ids(p),
            r is Ok ==> final(self).total_certificates_of() == old(
                self,
            ).total_certificates_of() + 1,
            r is Ok ==> final(self).total_co2e_of() == old(self).total_co2e_of()
                + record.co2e_tons,
            r is Ok ==> final(self).events_log() == old(self).events_log().push(
                RegistryEvent::Minted(
                    CertificateMintedEvent {
                        certificate_id,
                        farmer: record.farmer_address,
                        verifier: record.verifier_address,
                        tons_minted: record.co2e_tons,
                        timestamp,
                    },
                ),
            ),
            r is Ok ==> final(self).admin_of() == old(self).admin_of() && final(self).token_contract_of() == old(self).token_contract_of(),
    {
        if !auth.allows(record.verifier_address) {
            return Err(ContractError::NotAuthorized);
        }
        if record.hectares_not_burned == 0 {
            return Err(ContractError::InvalidInput);
        }
        if record.co2e_tons == 0 {
            return Err(ContractError::InvalidInput);
        }
        match Self::find_cert(&self.certs, certificate_id) {
            Some(i) => {
                proof {
                    assert(cert_has(self.certs@, certificate_id)) by {
                        assert(self.certs@[i as int].id == certificate_id);
                    }
                }
                return Err(ContractError::AlreadyExists);
            },
            None => {},
        }
        let farmer = record.farmer_address;
        let verifier = record.verifier_address;
        let tons = record.co2e_tons;
        let ghost certs0 = self.certs@;
        let entry = CertEntry { id: certificate_id, record, owner: farmer };
        let ghost e = entry;
        self.certs.push(entry);
        proof {
            lemma_cert_push_frame(certs0, e);
            lemma_co2e_sum_push(certs0, e);
        }
        self.total_certificates = self.total_certificates + 1;
        self.total_co2e = self.total_co2e + tons;
        let ghost fi0 = self.farmer_index@;
        Self::index_add(&mut self.farmer_index, farmer, certificate_id);
        let ghost vi0 = self.verifier_index@;
        Self::index_add(&mut self.verifier_index, verifier, certificate_id);
        let call = if self.token_contract.is_some() {
            Some(LedgerMintCall { to: farmer, amount: #[verifier::truncate] (tons as i128) })
        } else {
            None
        };
        self.events.push(
            RegistryEvent::Minted(
                CertificateMintedEvent {
                    certificate_id,
                    farmer,
                    verifier,
                    tons_minted: tons,
                    timestamp,
                },
            ),
        );
        proof {
            let kf = |c: CertEntry| c.record.farmer_address;
            let kv = |c: CertEntry| c.record.verifier_address;
            assert forall|i: int| 0 <= i < certs0.len() implies idx_ids(
                fi0,
                kf(#[trigger] certs0[i]),
            ).contains(certs0[i].id) by {
                assert(old(self).certs@[i] == certs0[i]);
            }
            assert forall|i: int| 0 <= i < certs0.len() implies idx_ids(
                vi0,
                kv(#[trigger] certs0[i]),
            ).contains(certs0[i].id) by {
                assert(old(self).certs@[i] == certs0[i]);
            }
            lemma_mint_index_wf(certs0, e, fi0, self.farmer_index@, kf);
            lemma_mint_index_wf(certs0, e, vi0, self.verifier_index@, kv);
            assert forall|i: int| 0 <= i < self.certs@.len() implies valid_record(
                #[trigger] self.certs@[i].record,
            ) by {
                if i < certs0.len() {
                    assert(valid_record(old(self).certs@[i].record));
                }
            }
            assert forall|i: int| 0 <= i < self.certs@.len() implies idx_ids(
                self.farmer_index@,
                (#[trigger] self.certs@[i]).record.farmer_address,
            ).contains(self.certs@[i].id) by {
                assert(idx_ids(self.farmer_index@, kf(self.certs@[i])).contains(
                    self.certs@[i].id,
                ));
            }
            assert forall|i: int| 0 <= i < self.certs@.len() implies idx_ids(
                self.verifier_index@,
                (#[trigger] self.certs@[i]).record.verifier_address,
            ).contains(self.certs@[i].id) by {
                assert(idx_ids(self.verifier_index@, kv(self.certs@[i])).contains(
                    self.certs@[i].id,
                ));
            }
        }
        Ok(call)
    }

    /// Removes `id` from the list indexed under `p` with swap-pop
    /// semantics; a missing id or principal is a no-op, so burn may call it
    /// defensively.
    fn index_remove(entries: &mut Vec<IndexEntry>, p: Principal, id: u32)
        requires
            idx_unique(old(entries)@),
            forall|q: Principal| unique_ids(#[trigger] idx_ids(old(entries)@, q)),
        ensures
            idx_unique(final(entries)@),
            forall|q: Principal| unique_ids(#[trigger] idx_ids(final(entries)@, q)),
            forall|q: Principal|
                q != p ==> #[trigger] idx_ids(final(entries)@, q) == idx_ids(old(entries)@, q),
            idx_ids(old(entries)@, p).contains(id) ==> idx_ids(final(entries)@, p) == swap_pop(
                idx_ids(old(entries)@, p),
                position_of(idx_ids(old(entries)@, p), id),
            ),
            !idx_ids(old(entries)@, p).contains(id) ==> idx_ids(final(entries)@, p) == idx_ids(
                old(entries)@,
                p,
            ),
            forall|y: u32|
                #[trigger] idx_ids(final(entries)@, p).contains(y) <==> (idx_ids(
                    old(entries)@,
                    p,
                ).contains(y) && y != id),
    {
        let ghost s = entries@;
        match Self::find_index_entry(entries, p) {
            Some(f) => {
                proof {
                    lemma_idx_ids_at(s, p, f as int);
                }
                let e = &mut entries[f];
                let _ = remove_id(&mut e.ids, id);
                proof {
                    lemma_idx_update_frame(s, f as int, entries@[f as int]);
                }
            },
            None => {},
        }
    }

    /// Hands the certificate to a new holder.  Demands proof of control of
    /// `from`, which must be the stored current holder; the record, the
    /// indices and the counters are untouched.
    pub fn transfer_certificate(&mut self, auth: &AuthContext, certificate_id: u32,
        from: Principal, to: Principal) -> (r: Result<(), ContractError>)
        requires
            old(self).wf(),
        ensures
            final(self).wf(),
            r is Err ==> *final(self) == *old(self),
            r == Err::<(), ContractError>(ContractError::NotAuthorized) <==> !auth.authorizes(
                from,
            ),
            r == Err::<(), ContractError>(ContractError::NotFound) <==> auth.authorizes(from)
                && !old(self).contains_cert(certificate_id),
            r == Err::<(), ContractError>(ContractError::NotOwner) <==> auth.authorizes(from)
                && old(self).contains_cert(certificate_id) && old(self).owner_of(certificate_id)
                != from,
            r == Ok::<(), ContractError>(()) <==> auth.authorizes(from) && old(
                self,
            ).contains_cert(certificate_id) && old(self).owner_of(certificate_id) == from,
            r is Ok ==> final(self).owner_of(certificate_id) == to,
            r is Ok ==> forall|x: u32|
                #[trigger] final(self).contains_cert(x) == old(self).contains_cert(x),
            r is Ok ==> forall|x: u32|
                old(self).contains_cert(x) ==> #[trigger] final(self).record_of(x) == old(
                    self,
                ).record_of(x),
            r is Ok ==> forall|x: u32|
                x != certificate_id && old(self).contains_cert(x) ==> #[trigger] final(self).owner_of(x) == old(self).owner_of(x),
            r is Ok ==> forall|p: Principal|
                #[trigger] final(self).farmer_ids(p) == old(self).farmer_ids(p),
            r is Ok ==> forall|p: Principal|
                #[trigger] final(self).verifier_ids(p) == old(self).verifier_ids(p),
            r is Ok ==> final(self).total_certificates_of() == old(
                self,
            ).total_certificates_of(),
            r is Ok ==> final(self).total_co2e_of() == old(self).total_co2e_of(),
            r is Ok ==> final(self).admin_of() == old(self).admin_of() && final(self).token_contract_of() == old(self).token_contract_of(),
            r is Ok ==> final(self).events_log() == old(self).events_log().push(
                RegistryEvent::Transferred(
                    CertificateTransferredEvent { certificate_id, from, to },
                ),
            ),
    {
        if !auth.allows(from) {
            return Err(ContractError::NotAuthorized);
        }
        let i = match Self::find_cert(&self.certs, certificate_id) {
            Some(i) => i,
            None => {
                return Err(ContractError::NotFound);
            },
        };
        proof {
            lemma_cert_at(self.certs@, certificate_id, i as int);
        }
        if self.certs[i].owner != from {
            return Err(ContractError::NotOwner);
        }
        let ghost certs0 = self.certs@;
        let e = &mut self.certs[i];
        e.owner = to;
        proof {
            let e2 = self.certs@[i as int];
            lemma_cert_update_frame(certs0, i as int, e2);
            lemma_co2e_sum_update_same(certs0, i as int, e2);
            assert forall|j: int| 0 <= j < self.certs@.len() implies valid_record(
                #[trigger] self.certs@[j].record,
            ) by {
                assert(valid_record(old(self).certs@[j].record));
                assert(self.certs@[j].record == certs0[j].record);
            }
            assert forall|j: int| 0 <= j < self.certs@.len() implies idx_ids(
                self.farmer_index@,
                (#[trigger] self.certs@[j]).record.farmer_address,
            ).contains(self.certs@[j].id) by {
                assert(self.certs@[j].record == certs0[j].record);
                assert(self.certs@[j].id == certs0[j].id);
                assert(idx_ids(
                    old(self).farmer_index@,
                    old(self).certs@[j].record.farmer_address,
                ).contains(old(self).certs@[j].id));
            }
            assert forall|j: int| 0 <= j < self.certs@.len() implies idx_ids(
                self.verifier_index@,
                (#[trigger] self.certs@[j]).record.verifier_address,
            ).contains(self.certs@[j].id) by {
                assert(self.certs@[j].record == certs0[j].record);
                assert(self.certs@[j].id == certs0[j].id);
                assert(idx_ids(
                    old(self).verifier_index@,
                    old(self).certs@[j].record.verifier_address,
                ).contains(old(self).certs@[j].id));
            }
            assert forall|p: Principal, id: u32| #[trigger] idx_ids(
                self.farmer_index@,
                p,
            ).contains(id) implies cert_has(self.certs@, id) && cert_at(
                self.certs@,
                id,
            ).record.farmer_address == p by {
                assert(cert_has(certs0, id) && cert_at(certs0, id).record.farmer_address == p);
                if id == certificate_id {
                    assert(cert_at(self.certs@, id).record == cert_at(certs0, id).record);
                }
            }
            assert forall|p: Principal, id: u32| #[trigger] idx_ids(
                self.verifier_index@,
                p,
            ).contains(id) implies cert_has(self.certs@, id) && cert_at(
                self.certs@,
                id,
            ).record.verifier_address == p by {
                assert(cert_has(certs0, id) && cert_at(certs0, id).record.verifier_address == p);
                if id == certificate_id {
                    assert(cert_at(self.certs@, id).record == cert_at(certs0, id).record);
                }
            }
        }
        self.events.push(
            RegistryEvent::Transferred(CertificateTransferredEvent { certificate_id, from, to }),
        );
        Ok(())
    }

    /// Burns the certificate: the final act of carbon compensation.
    /// Demands proof of control of the current holder.  The record and the
    /// ownership entry are deleted together, the id leaves both indices
    /// with swap-pop semantics, and both counters shrink by the record's
    /// contribution; the id becomes free for a later, unrelated mint.
    pub fn burn_certificate(&mut self, auth: &AuthContext, certificate_id: u32) -> (r: Result<
        (),
        ContractError,
    >)
        requires
            old(self).wf(),
        ensures
            final(self).wf(),
            r is Err ==> *final(self) == *old(self),
            r == Err::<(), ContractError>(ContractError::NotFound) <==> !old(
                self,
            ).contains_cert(certificate_id),
            r == Err::<(), ContractError>(ContractError::NotAuthorized) <==> old(
                self,
            ).contains_cert(certificate_id) && !auth.authorizes(old(self).owner_of(
                certificate_id,
            )),
            r == Ok::<(), ContractError>(()) <==> old(self).contains_cert(certificate_id)
                && auth.authorizes(old(self).owner_of(certificate_id)),
            r is Ok ==> !final(self).contains_cert(certificate_id),
            r is Ok ==> forall|x: u32|
                x != certificate_id ==> #[trigger] final(self).contains_cert(x) == old(
                    self,
                ).contains_cert(x),
            r is Ok ==> forall|x: u32|
                x != certificate_id && old(self).contains_cert(x) ==> #[trigger] final(self).record_of(x) == old(self).record_of(x) && final(self).owner_of(x) == old(
                    self,
                ).owner_of(x),
            r is Ok ==> final(self).farmer_ids(old(self).record_of(certificate_id).farmer_address)
                == swap_pop(
                old(self).farmer_ids(old(self).record_of(certificate_id).farmer_address),
                position_of(
                    old(self).farmer_ids(old(self).record_of(certificate_id).farmer_address),
                    certificate_id,
                ),
            ),
            r is Ok ==> forall|p: Principal|
                p != old(self).record_of(certificate_id).farmer_address ==> #[trigger] final(self).farmer_ids(p) == old(self).farmer_ids(p),
            r is Ok ==> final(self).verifier_ids(
                old(self).record_of(certificate_id).verifier_address,
            ) == swap_pop(
                old(self).verifier_ids(old(self).record_of(certificate_id).verifier_address),
                position_of(
                    old(self).verifier_ids(
                        old(self).record_of(certificate_id).verifier_address,
                    ),
                    certificate_id,
                ),
            ),
            r is Ok ==> forall|p: Principal|
                p != old(self).record_of(certificate_id).verifier_address ==> #[trigger] final(self).verifier_ids(p) == old(self).verifier_ids(p),
            r is Ok ==> final(self).total_certificates_of() == old(
                self,
            ).total_certificates_of() - 1,
            r is Ok ==> final(self).total_co2e_of() == old(self).total_co2e_of() - old(
                self,
            ).record_of(certificate_id).co2e_tons,
            r is Ok ==> final(self).admin_of() == old(self).admin_of() && final(self).token_contract_of() == old(self).token_contract_of(),
            r is Ok ==> final(self).events_log() == old(self).events_log().push(
                RegistryEvent::Burned(
                    CertificateBurnedEvent {
                        certificate_id,
                        burned_by: old(self).owner_of(certificate_id),
                        co2e_tons_retired: old(self).record_of(certificate_id).co2e_tons,
                    },
                ),
            ),
    {
        let i = match Self::find_cert(&self.certs, certificate_id) {
            Some(i) => i,
            None => {
                return Err(ContractError::NotFound);
            },
        };
        proof {
            lemma_cert_at(self.certs@, certificate_id, i as int);
        }
        let owner = self.certs[i].owner;
        if !auth.allows(owner) {
            return Err(ContractError::NotAuthorized);
        }
        let farmer = self.certs[i].record.farmer_address;
        let verifier = self.certs[i].record.verifier_address;
        let tons = self.certs[i].record.co2e_tons;
        let ghost certs0 = self.certs@;
        let ghost e = certs0[i as int];
        let _ = self.certs.remove(i);
        proof {
            lemma_cert_remove_frame(certs0, i as int);
            lemma_co2e_sum_remove(certs0, i as int);
            lemma_co2e_sum_nonneg(certs0.remove(i as int));
        }
        self.total_certificates = self.total_certificates - 1;
        self.total_co2e = self.total_co2e - tons;
        let ghost fi0 = self.farmer_index@;
        proof {
            assert(idx_ids(fi0, farmer).contains(certificate_id)) by {
                assert(old(self).certs@[i as int] == e);
                assert(idx_ids(
                    old(self).farmer_index@,
                    old(self).certs@[i as int].record.farmer_address,
                ).contains(old(self).certs@[i as int].id));
            }
        }
        Self::index_remove(&mut self.farmer_index, farmer, certificate_id);
        let ghost vi0 = self.verifier_index@;
        proof {
            assert(idx_ids(vi0, verifier).contains(certificate_id)) by {
                assert(old(self).certs@[i as int] == e);
                assert(idx_ids(
                    old(self).verifier_index@,
                    old(self).certs@[i as int].record.verifier_address,
                ).contains(old(self).certs@[i as int].id));
            }
        }
        Self::index_remove(&mut self.verifier_index, verifier, certificate_id);
        self.events.push(
            RegistryEvent::Burned(
                CertificateBurnedEvent {
                    certificate_id,
                    burned_by: owner,
                    co2e_tons_retired: tons,
                },
            ),
        );
        proof {
            let kf = |c: CertEntry| c.record.farmer_address;
            let kv = |c: CertEntry| c.record.verifier_address;
            assert forall|j: int| 0 <= j < certs0.len() implies idx_ids(
                fi0,
                kf(#[trigger] certs0[j]),
            ).contains(certs0[j].id) by {
                assert(old(self).certs@[j] == certs0[j]);
            }
            assert forall|j: int| 0 <= j < certs0.len() implies idx_ids(
                vi0,
                kv(#[trigger] certs0[j]),
            ).contains(certs0[j].id) by {
                assert(old(self).certs@[j] == certs0[j]);
            }
            lemma_burn_index_wf(certs0, i as int, fi0, self.farmer_index@, kf);
            lemma_burn_index_wf(certs0, i as int, vi0, self.verifier_index@, kv);
            assert forall|j: int| 0 <= j < self.certs@.len() implies valid_record(
                #[trigger] self.certs@[j].record,
            ) by {
                let j2: int = if j < i as int {
                    j
                } else {
                    j + 1
                };
                assert(self.certs@[j] == certs0[j2]);
                assert(valid_record(old(self).certs@[j2].record));
            }
            assert forall|j: int| 0 <= j < self.certs@.len() implies idx_ids(
                self.farmer_index@,
                (#[trigger] self.certs@[j]).record.farmer_address,
            ).contains(self.certs@[j].id) by {
                assert(idx_ids(self.farmer_index@, kf(self.certs@[j])).contains(
                    self.certs@[j].id,
                ));
            }
            assert forall|j: int| 0 <= j < self.certs@.len() implies idx_ids(
                self.verifier_index@,
                (#[trigger] self.certs@[j]).record.verifier_address,
            ).contains(self.certs@[j].id) by {
                assert(idx_ids(self.verifier_index@, kv(self.certs@[j])).contains(
                    self.certs@[j].id,
                ));
            }
        }
        Ok(())
    }

    /// Reads the stored CO2e of a live certificate.
    fn co2e_of(&self, id: u32) -> (r: u128)
        requires
            self.wf(),
            self.contains_cert(id),
        ensures
            r == self.record_of(id).co2e_tons,
    {
        match self.get_certificate_data(id) {
            Ok(rec) => rec.co2e_tons,
            Err(_) => {
                proof {
                    assert(false);
                }
                0
            },
        }
    }

    /// Reads the key a live certificate is ranked by under `sort_by`.
    fn rank_key(&self, id: u32, sort_by: &SortBy) -> (r: u128)
        requires
            self.wf(),
            self.contains_cert(id),
        ensures
            r == self.sort_key_of(id, *sort_by),
    {
        match sort_by {
            SortBy::Co2eTons => self.co2e_of(id),
            SortBy::Hectares => {
                match self.get_certificate_data(id) {
                    Ok(rec) => rec.hectares_not_burned as u128,
                    Err(_) => {
                        proof {
                            assert(false);
                        }
                        0
                    },
                }
            },
            SortBy::CertificateId => id as u128,
        }
    }

    /// Lists a verifier's certificate ids in index order, paginated.
    /// Returns `(page, total)`, where `total` counts the whole listing.
    pub fn list_certificates_by_verifier(&self, verifier_address: Principal, offset: u32,
        limit: u32) -> (r: (Vec<u32>, u32))
        requires
            self.wf(),
        ensures
            r.1 == self.verifier_ids(verifier_address).len(),
            r.0@ == page_of(self.verifier_ids(verifier_address), offset, limit),
    {
        match Self::find_index_entry(&self.verifier_index, verifier_address) {
            Some(f) => {
                proof {
                    lemma_idx_ids_at(self.verifier_index@, verifier_address, f as int);
                    let l = self.verifier_index@[f as int].ids@;
                    assert forall|k: int| 0 <= k < l.len() implies cert_has(
                        self.certs@,
                        #[trigger] l[k],
                    ) by {
                        assert(idx_ids(self.verifier_index@, verifier_address).contains(l[k]))
                            by {
                            assert(idx_ids(self.verifier_index@, verifier_address)[k] == l[k]);
                        }
                    }
                    lemma_live_list_len(self.certs@, l);
                }
                paginate_ids(&self.verifier_index[f].ids, offset, limit)
            },
            None => (Vec::new(), 0),
        }
    }

    /// Lists a farmer's certificate ids filtered to those whose stored CO2e
    /// lies in `[min_tons, max_tons]` inclusive, in index order, paginated.
    /// Returns `(page, total)`, where `total` counts the whole filtered
    /// listing.
    pub fn filter_by_co2e_range(&self, farmer_address: Principal, min_tons: u128,
        max_tons: u128, offset: u32, limit: u32) -> (r: (Vec<u32>, u32))
        requires
            self.wf(),
        ensures
            r.1 == self.co2e_filtered_ids(farmer_address, min_tons, max_tons).len(),
            r.0@ == page_of(
                self.co2e_filtered_ids(farmer_address, min_tons, max_tons),
                offset,
                limit,
            ),
    {
        let mut selected: Vec<u32> = Vec::new();
        match Self::find_index_entry(&self.farmer_index, farmer_address) {
            Some(f) => {
                proof {
                    lemma_idx_ids_at(self.farmer_index@, farmer_address, f as int);
                }
                let ids = &self.farmer_index[f].ids;
                let ghost l = ids@;
                proof {
                    assert forall|k: int| 0 <= k < l.len() implies cert_has(
                        self.certs@,
                        #[trigger] l[k],
                    ) by {
                        assert(idx_ids(self.farmer_index@, farmer_address).contains(l[k])) by {
                            assert(idx_ids(self.farmer_index@, farmer_address)[k] == l[k]);
                        }
                    }
                    lemma_live_list_len(self.certs@, l);
                    self.lemma_co2e_filter_empty(min_tons, max_tons);
                }
                let mut k: usize = 0;
                while k < ids.len()
                    invariant
                        self.wf(),
                        k <= l.len(),
                        ids@ == l,
                        l == self.farmer_ids(farmer_address),
                        forall|m: int| 0 <= m < l.len() ==> cert_has(self.certs@, #[trigger] l[m]),
                        selected@ == self.co2e_filter(l.take(k as int), min_tons, max_tons),
                        selected@.len() <= k,
                    decreases l.len() - k,
                {
                    let id = ids[k];
                    proof {
                        assert(cert_has(self.certs@, l[k as int]));
                    }
                    let co2e = self.co2e_of(id);
                    let ghost prev = l.take(k as int);
                    proof {
                        self.lemma_co2e_filter_push(prev, id, min_tons, max_tons);
                        assert(l.take(k as int + 1) =~= prev.push(id));
                    }
                    if co2e >= min_tons && co2e <= max_tons {
                        selected.push(id);
                    }
                    k += 1;
                }
                proof {
                    assert(l.take(l.len() as int) =~= l);
                }
            },
            None => {
                proof {
                    self.lemma_co2e_filter_empty(min_tons, max_tons);
                }
            },
        }
        paginate_ids(&selected, offset, limit)
    }

    /// Lists a farmer's certificate ids sorted by the chosen key, ascending
    /// or descending, stable under ties by index order, paginated.  Returns
    /// `(page, total)`, where `total` counts the whole listing.
    pub fn list_certificates_by_farmer(&self, farmer_address: Principal, offset: u32,
        limit: u32, sort_by: SortBy, is_descending: bool) -> (r: (Vec<u32>, u32))
        requires
            self.wf(),
        ensures
            r.1 == self.farmer_ids(farmer_address).len(),
            r.0@ == page_of(
                ids_of(
                    stable_sort(
                        self.ranked_farmer_ids(farmer_address, sort_by),
                        is_descending,
                    ),
                ),
                offset,
                limit,
            ),
    {
        let ghost rf = self.ranked_farmer_ids(farmer_address, sort_by);
        match Self::find_index_entry(&self.farmer_index, farmer_address) {
            Some(f) => {
                proof {
                    lemma_idx_ids_at(self.farmer_index@, farmer_address, f as int);
                }
                let ids = &self.farmer_index[f].ids;
                let ghost l = ids@;
                proof {
                    assert forall|k: int| 0 <= k < l.len() implies cert_has(
                        self.certs@,
                        #[trigger] l[k],
                    ) by {
                        assert(idx_ids(self.farmer_index@, farmer_address).contains(l[k])) by {
                            assert(idx_ids(self.farmer_index@, farmer_address)[k] == l[k]);
                        }
                    }
                    lemma_live_list_len(self.certs@, l);
                }
                let mut ranked: Vec<RankedId> = Vec::new();
                let mut k: usize = 0;
                while k < ids.len()
                    invariant
                        self.wf(),
                        k <= l.len(),
                        ids@ == l,
                        l == self.farmer_ids(farmer_address),
                        rf == self.ranked_farmer_ids(farmer_address, sort_by),
                        forall|m: int| 0 <= m < l.len() ==> cert_has(self.certs@, #[trigger] l[m]),
                        ranked@ == rf.take(k as int),
                    decreases l.len() - k,
                {
                    let id = ids[k];
                    proof {
                        assert(cert_has(self.certs@, l[k as int]));
                    }
                    let key = self.rank_key(id, &sort_by);
                    ranked.push(RankedId { id, key });
                    proof {
                        assert(rf[k as int] == RankedId { id, key });
                        assert(rf.take(k as int + 1) =~= rf.take(k as int).push(rf[k as int]));
                    }
                    k += 1;
                }
                proof {
                    assert(rf.take(rf.len() as int) =~= rf);
                }
                let sorted = sort_ranked(&ranked, is_descending);
                proof {
                    lemma_stable_sort_len(rf, is_descending);
                }
                let mut out: Vec<u32> = Vec::new();
                let mut k2: usize = 0;
                while k2 < sorted.len()
                    invariant
                        k2 <= sorted@.len(),
                        sorted@ == stable_sort(rf, is_descending),
                        sorted@.len() == rf.len(),
                        out@ == ids_of(sorted@).take(k2 as int),
                    decreases sorted@.len() - k2,
                {
                    out.push(sorted[k2].id);
                    proof {
                        assert(ids_of(sorted@)[k2 as int] == sorted@[k2 as int].id);
                        assert(ids_of(sorted@).take(k2 as int + 1) =~= ids_of(sorted@).take(
                            k2 as int,
                        ).push(ids_of(sorted@)[k2 as int]));
                    }
                    k2 += 1;
                }
                proof {
                    assert(ids_of(sorted@).take(ids_of(sorted@).len() as int) =~= ids_of(
                        sorted@,
                    ));
                }
                paginate_ids(&out, offset, limit)
            },
            None => {
                proof {
                    assert(rf.len() == 0);
                    assert(stable_sort(rf, is_descending) =~= Seq::<RankedId>::empty());
                    assert(ids_of(stable_sort(rf, is_descending)).len() == 0);
                }
                (Vec::new(), 0)
            },
        }
    }

    /// Filtering an empty listing keeps nothing.
    proof fn lemma_co2e_filter_empty(self, min_tons: u128, max_tons: u128)
        ensures
            self.co2e_filter(Seq::<u32>::empty(), min_tons, max_tons) == Seq::<u32>::empty(),
    {
        reveal(Seq::filter);
    }

    /// What filtering keeps of one more id at the end of a listing.
    proof fn lemma_co2e_filter_push(self, l: Seq<u32>, id: u32, min_tons: u128, max_tons: u128)
        ensures
            self.co2e_filter(l.push(id), min_tons, max_tons) == if self.co2e_in_range(
                id,
                min_tons,
                max_tons,
            ) {
                self.co2e_filter(l, min_tons, max_tons).push(id)
            } else {
                self.co2e_filter(l, min_tons, max_tons)
            },
    {
        reveal(Seq::filter);
        assert(l.push(id).drop_last() =~= l);
        assert(l.push(id).last() == id);
        assert(l.push(id).len() != 0);
    }

    /// The members of a filtered listing: exactly the listed ids whose
    /// stored CO2e lies in the range.
    proof fn lemma_co2e_filter_members(self, l: Seq<u32>, min_tons: u128, max_tons: u128)
        ensures
            forall|id: u32|
                #[trigger] self.co2e_filter(l, min_tons, max_tons).contains(id) <==> (l.contains(
                    id,
                ) && self.co2e_in_range(id, min_tons, max_tons)),
        decreases l.len(),
    {
        if l.len() == 0 {
            self.lemma_co2e_filter_empty(min_tons, max_tons);
            assert(l =~= Seq::<u32>::empty());
        } else {
            let prev = l.drop_last();
            let z = l.last();
            self.lemma_co2e_filter_members(prev, min_tons, max_tons);
            self.lemma_co2e_filter_push(prev, z, min_tons, max_tons);
            crate::index_list::lemma_push_members(
                self.co2e_filter(prev, min_tons, max_tons),
                z,
            );
            crate::index_list::lemma_push_members(prev, z);
            assert(l =~= prev.push(z));
            assert forall|id: u32| #[trigger] self.co2e_filter(l, min_tons, max_tons).contains(
                id,
            ) <==> (l.contains(id) && self.co2e_in_range(id, min_tons, max_tons)) by {
                if !self.co2e_in_range(z, min_tons, max_tons) {
                    if l.contains(id) && self.co2e_in_range(id, min_tons, max_tons) {
                        assert(id != z);
                        assert(prev.contains(id));
                    }
                }
            }
        }
    }
}

/// Filtering by CO2e range keeps exactly the ids whose stored CO2e lies in
/// `[min_tons, max_tons]` inclusive — a fact about membership alone, so it
/// holds independently of the order minting gave the index.
pub proof fn lemma_filter_by_co2e_members(reg: CarbonCertifier, p: Principal, min_tons: u128,
    max_tons: u128)
    requires
        reg.wf(),
    ensures
        forall|id: u32|
            #[trigger] reg.co2e_filtered_ids(p, min_tons, max_tons).contains(id) <==> (
            reg.farmer_ids(p).contains(id) && min_tons <= reg.record_of(id).co2e_tons
                <= max_tons),
{
    reg.lemma_co2e_filter_members(reg.farmer_ids(p), min_tons, max_tons);
}

/// A duplicate-free list of live certificate ids can hold no more ids than
/// there are live certificates.
proof fn lemma_live_list_len(certs: Seq<CertEntry>, l: Seq<u32>)
    requires
        certs_unique(certs),
        unique_ids(l),
        forall|k: int| 0 <= k < l.len() ==> cert_has(certs, #[trigger] l[k]),
    ensures
        l.len() <= certs.len(),
{
    broadcast use vstd::set::group_set_axioms;
    broadcast use vstd::seq_lib::seq_to_set_is_finite;

    assert(l.no_duplicates()) by {
        assert forall|a: int, b: int|
            0 <= a < l.len() && 0 <= b < l.len() && a != b implies l[a] != l[b] by {
            if a < b {
                assert(l[a] != l[b]);
            } else {
                assert(l[b] != l[a]);
            }
        }
    }
    l.unique_seq_to_set();
    let live = certs.map_values(|c: CertEntry| c.id);
    live.lemma_cardinality_of_set();
    assert forall|y: u32| l.to_set().contains(y) implies live.to_set().contains(y) by {
        assert(l.contains(y));
        let k = choose|k: int| 0 <= k < l.len() && l[k] == y;
        assert(cert_has(certs, l[k]));
        let m = choose|m: int| 0 <= m < certs.len() && certs[m].id == y;
        assert(live[m] == y);
        assert(live.contains(y));
    }
    assert(l.to_set().subset_of(live.to_set()));
    lemma_len_subset(l.to_set(), live.to_set());
}

proof fn lemma_co2e_sum_push(s: Seq<CertEntry>, e: CertEntry)
    ensures
        co2e_sum(s.push(e)) == co2e_sum(s) + e.record.co2e_tons,
{
    assert(s.push(e).drop_last() =~= s);
    assert(s.push(e).last() == e);
    assert(s.push(e).len() != 0);
}

/// What appending a fresh certificate does to the store's lookups.
proof fn lemma_cert_push_frame(s: Seq<CertEntry>, e: CertEntry)
    requires
        certs_unique(s),
        !cert_has(s, e.id),
    ensures
        certs_unique(s.push(e)),
        cert_has(s.push(e), e.id),
        cert_at(s.push(e), e.id) == e,
        forall|x: u32| x != e.id ==> (#[trigger] cert_has(s.push(e), x) == cert_has(s, x)),
        forall|x: u32|
            x != e.id && cert_has(s, x) ==> #[trigger] cert_at(s.push(e), x) == cert_at(s, x),
{
    let t = s.push(e);
    assert forall|i: int, j: int| 0 <= i < j < t.len() implies t[i].id != t[j].id by {
        if j == s.len() {
            assert(t[i] == s[i]);
            if s[i].id == e.id {
                assert(cert_has(s, e.id)) by {
                    assert(s[i].id == e.id);
                }
            }
        }
    }
    lemma_cert_at(t, e.id, s.len() as int);
    assert forall|x: u32| x != e.id implies (#[trigger] cert_has(t, x) == cert_has(s, x)) by {
        if cert_has(t, x) {
            let k = choose|k: int| 0 <= k < t.len() && t[k].id == x;
            assert(k < s.len());
            assert(cert_has(s, x)) by {
                assert(s[k].id == x);
            }
        }
        if cert_has(s, x) {
            let k = choose|k: int| 0 <= k < s.len() && s[k].id == x;
            assert(cert_has(t, x)) by {
                assert(t[k].id == x);
            }
        }
    }
    assert forall|x: u32| x != e.id && cert_has(s, x) implies #[trigger] cert_at(t, x)
        == cert_at(s, x) by {
        let k = choose|k: int| 0 <= k < s.len() && s[k].id == x;
        lemma_cert_at(s, x, k);
        lemma_cert_at(t, x, k);
    }
}

/// Replacing one principal's entry with an entry under the same key changes
/// only that principal's list.
proof fn lemma_idx_update_frame(s: Seq<IndexEntry>, f: int, e2: IndexEntry)
    requires
        idx_unique(s),
        0 <= f < s.len(),
        e2.key == s[f].key,
    ensures
        idx_unique(s.update(f, e2)),
        idx_ids(s.update(f, e2), e2.key) == e2.ids@,
        forall|q: Principal|
            q != e2.key ==> #[trigger] idx_ids(s.update(f, e2), q) == idx_ids(s, q),
{
    let t = s.update(f, e2);
    assert forall|i: int, j: int| 0 <= i < j < t.len() implies t[i].key != t[j].key by {
        assert(s[i].key != s[j].key);
    }
    lemma_idx_ids_at(t, e2.key, f);
    assert forall|q: Principal| q != e2.key implies #[trigger] idx_ids(t, q) == idx_ids(s, q) by {
        if idx_has(s, q) {
            let k = choose|k: int| 0 <= k < s.len() && s[k].key == q;
            assert(k != f);
            assert(t[k].key == q);
            lemma_idx_ids_at(s, q, k);
            lemma_idx_ids_at(t, q, k);
        } else {
            assert(!idx_has(t, q)) by {
                if idx_has(t, q) {
                    let k = choose|k: int| 0 <= k < t.len() && t[k].key == q;
                    assert(k != f);
                    assert(s[k].key == q);
                }
            }
        }
    }
}

/// Appending an entry for a principal that had none changes only that
/// principal's list.
proof fn lemma_idx_push_frame(s: Seq<IndexEntry>, e: IndexEntry)
    requires
        idx_unique(s),
        !idx_has(s, e.key),
    ensures
        idx_unique(s.push(e)),
        idx_ids(s.push(e), e.key) == e.ids@,
        forall|q: Principal| q != e.key ==> #[trigger] idx_ids(s.push(e), q) == idx_ids(s, q),
{
    let t = s.push(e);
    assert forall|i: int, j: int| 0 <= i < j < t.len() implies t[i].key != t[j].key by {
        if j == s.len() {
            assert(t[i] == s[i]);
            if s[i].key == e.key {
                assert(idx_has(s, e.key)) by {
                    assert(s[i].key == e.key);
                }
            }
        }
    }
    lemma_idx_ids_at(t, e.key, s.len() as int);
    assert forall|q: Principal| q != e.key implies #[trigger] idx_ids(t, q) == idx_ids(s, q) by {
        if idx_has(s, q) {
            let k = choose|k: int| 0 <= k < s.len() && s[k].key == q;
            assert(t[k].key == q);
            lemma_idx_ids_at(s, q, k);
            lemma_idx_ids_at(t, q, k);
        } else {
            assert(!idx_has(t, q)) by {
                if idx_has(t, q) {
                    let k = choose|k: int| 0 <= k < t.len() && t[k].key == q;
                    assert(k < s.len());
                    assert(s[k].key == q);
                }
            }
        }
    }
}

/// After a fresh certificate is appended and its id is appended to the list
/// its key names, the index invariants hold again.  `key_of` reads the
/// indexed principal out of an entry, so the lemma serves both the farmer
/// and the verifier side.
proof fn lemma_mint_index_wf(
    certs0: Seq<CertEntry>,
    e: CertEntry,
    idx0: Seq<IndexEntry>,
    idx1: Seq<IndexEntry>,
    key_of: spec_fn(CertEntry) -> Principal,
)
    requires
        certs_unique(certs0),
        !cert_has(certs0, e.id),
        forall|i: int|
            0 <= i < certs0.len() ==> idx_ids(idx0, key_of(#[trigger] certs0[i])).contains(
                certs0[i].id,
            ),
        forall|p: Principal, id: u32|
            #[trigger] idx_ids(idx0, p).contains(id) ==> cert_has(certs0, id) && key_of(
                cert_at(certs0, id),
            ) == p,
        forall|p: Principal| unique_ids(#[trigger] idx_ids(idx0, p)),
        idx_ids(idx1, key_of(e)) == idx_ids(idx0, key_of(e)).push(e.id),
        forall|q: Principal| q != key_of(e) ==> #[trigger] idx_ids(idx1, q) == idx_ids(idx0, q),
    ensures
        forall|i: int|
            0 <= i < certs0.push(e).len() ==> idx_ids(
                idx1,
                key_of(#[trigger] certs0.push(e)[i]),
            ).contains(certs0.push(e)[i].id),
        forall|p: Principal, id: u32|
            #[trigger] idx_ids(idx1, p).contains(id) ==> cert_has(certs0.push(e), id) && key_of(
                cert_at(certs0.push(e), id),
            ) == p,
        forall|p: Principal| unique_ids(#[trigger] idx_ids(idx1, p)),
{
    let certs1 = certs0.push(e);
    let kp = key_of(e);
    lemma_cert_push_frame(certs0, e);
    assert(!idx_ids(idx0, kp).contains(e.id)) by {
        if idx_ids(idx0, kp).contains(e.id) {
            assert(cert_has(certs0, e.id));
        }
    }
    lemma_push_fresh_id(idx_ids(idx0, kp), e.id);
    assert forall|i: int| 0 <= i < certs1.len() implies idx_ids(
        idx1,
        key_of(#[trigger] certs1[i]),
    ).contains(certs1[i].id) by {
        if i < certs0.len() {
            assert(certs1[i] == certs0[i]);
            assert(idx_ids(idx0, key_of(certs0[i])).contains(certs0[i].id));
            if key_of(certs0[i]) == kp {
                assert(idx_ids(idx1, kp).contains(certs0[i].id));
            }
        } else {
            assert(certs1[i] == e);
            assert(idx_ids(idx1, kp).contains(e.id));
        }
    }
    assert forall|p: Principal, id: u32| #[trigger] idx_ids(idx1, p).contains(id) implies
        cert_has(certs1, id) && key_of(cert_at(certs1, id)) == p by {
        if p == kp {
            assert(idx_ids(idx0, kp).contains(id) || id == e.id);
            if id == e.id {
                assert(cert_at(certs1, e.id) == e);
            } else {
                assert(cert_has(certs0, id) && key_of(cert_at(certs0, id)) == p);
                assert(cert_at(certs1, id) == cert_at(certs0, id));
            }
        } else {
            assert(idx_ids(idx0, p).contains(id));
            assert(cert_has(certs0, id) && key_of(cert_at(certs0, id)) == p);
            assert(id != e.id);
            assert(cert_at(certs1, id) == cert_at(certs0, id));
        }
    }
    assert forall|p: Principal| unique_ids(#[trigger] idx_ids(idx1, p)) by {
        if p == kp {
            assert(unique_ids(idx_ids(idx0, kp).push(e.id)));
        } else {
            assert(idx_ids(idx1, p) == idx_ids(idx0, p));
            assert(unique_ids(idx_ids(idx0, p)));
        }
    }
}

/// Replacing one entry with an entry under the same id changes only that
/// id's lookup.
proof fn lemma_cert_update_frame(s: Seq<CertEntry>, i: int, e2: CertEntry)
    requires
        certs_unique(s),
        0 <= i < s.len(),
        e2.id == s[i].id,
    ensures
        certs_unique(s.update(i, e2)),
        cert_has(s.update(i, e2), e2.id),
        cert_at(s.update(i, e2), e2.id) == e2,
        forall|x: u32| #[trigger] cert_has(s.update(i, e2), x) == cert_has(s, x),
        forall|x: u32|
            x != e2.id && cert_has(s, x) ==> #[trigger] cert_at(s.update(i, e2), x) == cert_at(
                s,
                x,
            ),
{
    let t = s.update(i, e2);
    assert forall|a: int, b: int| 0 <= a < b < t.len() implies t[a].id != t[b].id by {
        assert(s[a].id != s[b].id);
    }
    lemma_cert_at(t, e2.id, i);
    assert forall|x: u32| #[trigger] cert_has(t, x) == cert_has(s, x) by {
        if cert_has(t, x) {
            let k = choose|k: int| 0 <= k < t.len() && t[k].id == x;
            if k == i {
                assert(cert_has(s, x)) by {
                    assert(s[i].id == x);
                }
            } else {
                assert(cert_has(s, x)) by {
                    assert(s[k].id == x);
                }
            }
        }
        if cert_has(s, x) {
            let k = choose|k: int| 0 <= k < s.len() && s[k].id == x;
            if k == i {
                assert(cert_has(t, x)) by {
                    assert(t[i].id == x);
                }
            } else {
                assert(cert_has(t, x)) by {
                    assert(t[k].id == x);
                }
            }
        }
    }
    assert forall|x: u32| x != e2.id && cert_has(s, x) implies #[trigger] cert_at(t, x)
        == cert_at(s, x) by {
        let k = choose|k: int| 0 <= k < s.len() && s[k].id == x;
        assert(k != i);
        lemma_cert_at(s, x, k);
        lemma_cert_at(t, x, k);
    }
}

proof fn lemma_co2e_sum_update_same(s: Seq<CertEntry>, i: int, e2: CertEntry)
    requires
        0 <= i < s.len(),
        e2.record.co2e_tons == s[i].record.co2e_tons,
    ensures
        co2e_sum(s.update(i, e2)) == co2e_sum(s),
    decreases s.len(),
{
    let t = s.update(i, e2);
    if i == s.len() - 1 {
        assert(t.drop_last() =~= s.drop_last());
        assert(t.last() == e2);
    } else {
        assert(t.drop_last() =~= s.drop_last().update(i, e2));
        assert(t.last() == s.last());
        lemma_co2e_sum_update_same(s.drop_last(), i, e2);
    }
}

proof fn lemma_co2e_sum_remove(s: Seq<CertEntry>, i: int)
    requires
        0 <= i < s.len(),
    ensures
        co2e_sum(s.remove(i)) == co2e_sum(s) - s[i].record.co2e_tons,
    decreases s.len(),
{
    if i == s.len() - 1 {
        assert(s.remove(i) =~= s.drop_last());
    } else {
        assert(s.remove(i).drop_last() =~= s.drop_last().remove(i));
        assert(s.remove(i).last() == s.last());
        assert(s.remove(i).len() != 0);
        lemma_co2e_sum_remove(s.drop_last(), i);
    }
}

proof fn lemma_co2e_sum_nonneg(s: Seq<CertEntry>)
    ensures
        co2e_sum(s) >= 0,
    decreases s.len(),
{
    if s.len() != 0 {
        lemma_co2e_sum_nonneg(s.drop_last());
    }
}

/// What removing the entry at `i` does to the store's lookups.
proof fn lemma_cert_remove_frame(s: Seq<CertEntry>, i: int)
    requires
        certs_unique(s),
        0 <= i < s.len(),
    ensures
        certs_unique(s.remove(i)),
        !cert_has(s.remove(i), s[i].id),
        forall|x: u32| x != s[i].id ==> (#[trigger] cert_has(s.remove(i), x) == cert_has(s, x)),
        forall|x: u32|
            x != s[i].id && cert_has(s, x) ==> #[trigger] cert_at(s.remove(i), x) == cert_at(
                s,
                x,
            ),
{
    let t = s.remove(i);
    let n = s.len() as int;
    assert(t.len() == n - 1);
    assert forall|k: int| 0 <= k < t.len() implies t[k] == s[if k < i {
        k
    } else {
        k + 1
    }] by {}
    assert forall|a: int, b: int| 0 <= a < b < t.len() implies t[a].id != t[b].id by {
        let a2: int = if a < i {
            a
        } else {
            a + 1
        };
        let b2: int = if b < i {
            b
        } else {
            b + 1
        };
        assert(t[a] == s[a2]);
        assert(t[b] == s[b2]);
        assert(a2 < b2);
    }
    assert(!cert_has(t, s[i].id)) by {
        if cert_has(t, s[i].id) {
            let k = choose|k: int| 0 <= k < t.len() && t[k].id == s[i].id;
            let k2: int = if k < i {
                k
            } else {
                k + 1
            };
            assert(s[k2].id == s[i].id);
            assert(k2 != i);
        }
    }
    assert forall|x: u32| x != s[i].id implies (#[trigger] cert_has(t, x) == cert_has(s, x)) by {
        if cert_has(t, x) {
            let k = choose|k: int| 0 <= k < t.len() && t[k].id == x;
            let k2: int = if k < i {
                k
            } else {
                k + 1
            };
            assert(cert_has(s, x)) by {
                assert(s[k2].id == x);
            }
        }
        if cert_has(s, x) {
            let k = choose|k: int| 0 <= k < s.len() && s[k].id == x;
            assert(k != i);
            if k < i {
                assert(cert_has(t, x)) by {
                    assert(t[k].id == x);
                }
            } else {
                assert(cert_has(t, x)) by {
                    assert(t[k - 1].id == x);
                }
            }
        }
    }
    assert forall|x: u32| x != s[i].id && cert_has(s, x) implies #[trigger] cert_at(t, x)
        == cert_at(s, x) by {
        let k = choose|k: int| 0 <= k < s.len() && s[k].id == x;
        lemma_cert_at(s, x, k);
        assert(k != i);
        if k < i {
            assert(t[k] == s[k]);
            lemma_cert_at(t, x, k);
        } else {
            assert(t[k - 1] == s[k]);
            lemma_cert_at(t, x, k - 1);
        }
    }
}

/// After the certificate at `i` is removed from the store and its id is
/// removed from the list its key names, the index invariants hold again.
proof fn lemma_burn_index_wf(
    certs0: Seq<CertEntry>,
    i: int,
    idx0: Seq<IndexEntry>,
    idx1: Seq<IndexEntry>,
    key_of: spec_fn(CertEntry) -> Principal,
)
    requires
        certs_unique(certs0),
        0 <= i < certs0.len(),
        forall|j: int|
            0 <= j < certs0.len() ==> idx_ids(idx0, key_of(#[trigger] certs0[j])).contains(
                certs0[j].id,
            ),
        forall|p: Principal, id: u32|
            #[trigger] idx_ids(idx0, p).contains(id) ==> cert_has(certs0, id) && key_of(
                cert_at(certs0, id),
            ) == p,
        forall|y: u32|
            #[trigger] idx_ids(idx1, key_of(certs0[i])).contains(y) <==> (idx_ids(
                idx0,
                key_of(certs0[i]),
            ).contains(y) && y != certs0[i].id),
        forall|q: Principal|
            q != key_of(certs0[i]) ==> #[trigger] idx_ids(idx1, q) == idx_ids(idx0, q),
    ensures
        forall|j: int|
            0 <= j < certs0.remove(i).len() ==> idx_ids(
                idx1,
                key_of(#[trigger] certs0.remove(i)[j]),
            ).contains(certs0.remove(i)[j].id),
        forall|p: Principal, id: u32|
            #[trigger] idx_ids(idx1, p).contains(id) ==> cert_has(certs0.remove(i), id)
                && key_of(cert_at(certs0.remove(i), id)) == p,
{
    let certs1 = certs0.remove(i);
    let e = certs0[i];
    let kp = key_of(e);
    lemma_cert_remove_frame(certs0, i);
    lemma_cert_at(certs0, e.id, i);
    assert forall|j: int| 0 <= j < certs1.len() implies idx_ids(
        idx1,
        key_of(#[trigger] certs1[j]),
    ).contains(certs1[j].id) by {
        let j2: int = if j < i {
            j
        } else {
            j + 1
        };
        let c = certs1[j];
        assert(c == certs0[j2]);
        assert(idx_ids(idx0, key_of(certs0[j2])).contains(certs0[j2].id));
        assert(c.id != e.id);
        if key_of(c) == kp {
            assert(idx_ids(idx1, kp).contains(c.id));
        }
    }
    assert forall|p: Principal, id: u32| #[trigger] idx_ids(idx1, p).contains(id) implies
        cert_has(certs1, id) && key_of(cert_at(certs1, id)) == p by {
        if p == kp {
            assert(idx_ids(idx0, kp).contains(id) && id != e.id);
            assert(cert_has(certs0, id) && key_of(cert_at(certs0, id)) == p);
            assert(cert_at(certs1, id) == cert_at(certs0, id));
        } else {
            assert(idx_ids(idx0, p).contains(id));
            assert(cert_has(certs0, id) && key_of(cert_at(certs0, id)) == p);
            assert(id != e.id) by {
                if id == e.id {
                    assert(cert_at(certs0, e.id) == e);
                }
            }
            assert(cert_at(certs1, id) == cert_at(certs0, id));
        }
    }
}

/// An id stands in a principal's farmer index exactly when a live record
/// names that principal as beneficiary, and in a verifier index exactly
/// when a live record names it as issuer.  Every operation preserves `wf`,
/// so this holds at every observable point.
pub proof fn lemma_index_matches_live_records(reg: CarbonCertifier, p: Principal, id: u32)
    requires
        reg.wf(),
    ensures
        reg.farmer_ids(p).contains(id) <==> (reg.contains_cert(id) && reg.record_of(
            id,
        ).farmer_address == p),
        reg.verifier_ids(p).contains(id) <==> (reg.contains_cert(id) && reg.record_of(
            id,
        ).verifier_address == p),
{
    if reg.contains_cert(id) {
        let i = choose|i: int| 0 <= i < reg.certs@.len() && reg.certs@[i].id == id;
        lemma_cert_at(reg.certs@, id, i);
        assert(idx_ids(reg.farmer_index@, reg.certs@[i].record.farmer_address).contains(
            reg.certs@[i].id,
        ));
        assert(idx_ids(reg.verifier_index@, reg.certs@[i].record.verifier_address).contains(
            reg.certs@[i].id,
        ));
    }
}

/// TotalCertificates and TotalCO2e equal the count of, and the CO2e sum
/// over, the live records in every well-formed registry — so after any
/// sequence of mint and burn calls, each of which preserves `wf`.
pub proof fn lemma_counters_match_live_records(reg: CarbonCertifier)
    requires
        reg.wf(),
    ensures
        reg.total_certificates_of() as int == reg.live_count(),
        reg.total_co2e_of() as int == reg.live_co2e(),
{
}

} // verus!
