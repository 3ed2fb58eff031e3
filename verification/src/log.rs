//! The record chain: permission statements, unsigned records, signed
//! envelopes, and the append-only log that holds them.
//!
//! The log is a structural container only: it never validates what is
//! appended. Validation is the projector's job (see [`crate::acl`]).

use vstd::prelude::*;
use vstd::slice::slice_to_vec;

verus! {

/// Whether a permission statement grants or denies its capability.
#[derive(Debug, Clone, Copy, PartialEq, Eq, Structural)]
pub enum AclRecordType {
    Grant,
    Deny,
}

/// One permission statement: grant or deny one capability name to a list of
/// target key identifiers.
#[derive(Debug)]
pub struct AclPermission {
    pub action: AclRecordType,
    pub cap: String,
    pub key_id: Vec<u32>,
}

/// The mathematical content of an [`AclPermission`].
pub struct PermissionView {
    pub grant: bool,
    pub cap: Seq<char>,
    pub key_ids: Seq<u32>,
}

impl View for AclPermission {
    type V = PermissionView;

    open spec fn view(&self) -> PermissionView {
        PermissionView {
            grant: self.action is Grant,
            cap: self.cap@,
            key_ids: self.key_id@,
        }
    }
}

impl DeepView for AclPermission {
    type V = PermissionView;

    open spec fn deep_view(&self) -> PermissionView {
        self.view()
    }
}

impl Clone for AclPermission {
    fn clone(&self) -> (res: Self)
        ensures
            res@ == self@,
    {
        AclPermission {
            action: self.action,
            cap: self.cap.clone(),
            key_id: self.key_id.clone(),
        }
    }
}

impl AclPermission {
    /// A statement granting `cap` to every key identifier in `peers`.
    pub fn grant(peers: &[u32], cap: String) -> (res: Self)
        ensures
            res@.grant,
            res@.cap == cap@,
            res@.key_ids == peers@,
    {
        AclPermission { action: AclRecordType::Grant, cap, key_id: slice_to_vec(peers) }
    }

    /// A statement denying `cap` to every key identifier in `peers`.
    pub fn deny(peers: &[u32], cap: String) -> (res: Self)
        ensures
            !res@.grant,
            res@.cap == cap@,
            res@.key_ids == peers@,
    {
        AclPermission { action: AclRecordType::Deny, cap, key_id: slice_to_vec(peers) }
    }
}

/// The payload a signer commits to: a predecessor reference, newly introduced
/// public keys (in their encoded form), and permission statements.
#[derive(Debug)]
pub struct AclRecord {
    /// The exact encoded bytes of the preceding unsigned record; empty only
    /// for the first record of a chain. This literal-bytes binding is what
    /// makes the chain tamper-evident without a separate digest.
    pub last: Vec<u8>,
    /// Encoded public keys, appended to the keychain in list order.
    pub keys: Vec<Vec<u8>>,
    /// Permission statements, applied in list order.
    pub permissions: Vec<AclPermission>,
}

/// The mathematical content of an [`AclRecord`].
pub struct RecordView {
    pub last: Seq<u8>,
    pub keys: Seq<Seq<u8>>,
    pub permissions: Seq<PermissionView>,
}

impl View for AclRecord {
    type V = RecordView;

    open spec fn view(&self) -> RecordView {
        RecordView {
            last: self.last@,
            keys: self.keys.deep_view(),
            permissions: self.permissions.deep_view(),
        }
    }
}

impl DeepView for AclRecord {
    type V = RecordView;

    open spec fn deep_view(&self) -> RecordView {
        self.view()
    }
}

impl AclRecord {
    /// The bootstrap payload: no predecessor, no permissions, exactly the
    /// root key introduced at position 0.
    pub fn root(peer_key: Vec<u8>) -> (res: Self)
        ensures
            res@.last == Seq::<u8>::empty(),
            res@.keys == seq![peer_key@],
            res@.permissions == Seq::<PermissionView>::empty(),
    {
        let keys: Vec<Vec<u8>> = vec![peer_key];
        let res = AclRecord { last: Vec::new(), keys, permissions: Vec::new() };
        proof {
            assert(res.keys@[0].deep_view() =~= res.keys@[0]@);
            assert(res@.keys =~= seq![res.keys@[0]@]);
            assert(res@.permissions =~= Seq::<PermissionView>::empty());
        }
        res
    }

    /// A payload that continues the chain after the record whose encoded
    /// bytes are `last`, introducing nothing yet.
    pub fn from_last(last: &[u8]) -> (res: Self)
        ensures
            res@.last == last@,
            res@.keys == Seq::<Seq<u8>>::empty(),
            res@.permissions == Seq::<PermissionView>::empty(),
    {
        let res = AclRecord {
            last: slice_to_vec(last),
            keys: Vec::new(),
            permissions: Vec::new(),
        };
        proof {
            assert(res@.keys =~= Seq::<Seq<u8>>::empty());
            assert(res@.permissions =~= Seq::<PermissionView>::empty());
        }
        res
    }
}

/// A record plus the identifier of the key that signed it and the signature
/// over the record's exact encoded bytes.
#[derive(Debug)]
pub struct SignedRecord {
    pub signer: u32,
    pub signature: Vec<u8>,
    pub record: Vec<u8>,
}

/// The mathematical content of a [`SignedRecord`].
pub struct EnvelopeView {
    pub signer: u32,
    pub signature: Seq<u8>,
    pub record: Seq<u8>,
}

impl View for SignedRecord {
    type V = EnvelopeView;

    open spec fn view(&self) -> EnvelopeView {
        EnvelopeView { signer: self.signer, signature: self.signature@, record: self.record@ }
    }
}

impl DeepView for SignedRecord {
    type V = EnvelopeView;

    open spec fn deep_view(&self) -> EnvelopeView {
        self.view()
    }
}

impl Clone for SignedRecord {
    fn clone(&self) -> (res: Self)
        ensures
            res@ == self@,
    {
        SignedRecord {
            signer: self.signer,
            signature: self.signature.clone(),
            record: self.record.clone(),
        }
    }
}

impl PartialEq for SignedRecord {
    fn eq(&self, other: &Self) -> (r: bool) {
        let r = self.signer == other.signer && self.signature == other.signature && self.record
            == other.record;
        proof {
            if r {
                assert(self.signature@ =~= other.signature@);
                assert(self.record@ =~= other.record@);
            }
            if self@ == other@ {
                assert(self.signature@ == other.signature@);
                assert(self.record@ == other.record@);
            }
        }
        r
    }
}

impl vstd::std_specs::cmp::PartialEqSpecImpl for SignedRecord {
    open spec fn obeys_eq_spec() -> bool {
        true
    }

    open spec fn eq_spec(&self, other: &Self) -> bool {
        self@ == other@
    }
}

/// The ordered, append-only sequence of signed envelopes.
#[derive(Debug)]
pub struct AclRecordLog {
    pub records: Vec<SignedRecord>,
}

impl View for AclRecordLog {
    type V = Seq<EnvelopeView>;

    open spec fn view(&self) -> Seq<EnvelopeView> {
        self.records.deep_view()
    }
}

impl Default for AclRecordLog {
    fn default() -> (res: Self)
        ensures
            res@ == Seq::<EnvelopeView>::empty(),
    {
        let res = AclRecordLog { records: Vec::new() };
        proof {
            assert(res@ =~= Seq::<EnvelopeView>::empty());
        }
        res
    }
}

impl Clone for AclRecordLog {
    fn clone(&self) -> (res: Self)
        ensures
            res@ == self@,
    {
        let mut res = AclRecordLog { records: Vec::new() };
        res.extend(self.records.as_slice());
        proof {
            assert(res@ =~= self@);
        }
        res
    }
}

impl AclRecordLog {
    /// Whether no record has been appended yet.
    pub fn is_empty(&self) -> (r: bool)
        ensures
            r == (self@.len() == 0),
    {
        self.records.len() == 0
    }

    /// Appends the given envelopes to the tail, in order. No validation
    /// happens here; the projector validates on read.
    pub fn extend(&mut self, records: &[SignedRecord])
        ensures
            final(self)@ == old(self)@ + records.deep_view(),
    {
        let mut i: usize = 0;
        while i < records.len()
            invariant
                i <= records@.len(),
                self.records.len() == old(self)@.len() + i,
                forall|j: int| 0 <= j < old(self)@.len() ==> self@[j] == old(self)@[j],
                forall|j: int|
                    0 <= j < i ==> self@[old(self)@.len() + j] == records.deep_view()[j],
            decreases records@.len() - i,
        {
            let e = vstd::slice::slice_index_get(records, i).clone();
            self.records.push(e);
            i = i + 1;
        }
        proof {
            assert(self@ =~= old(self)@ + records.deep_view());
        }
    }

    /// Removes and returns the most recently appended envelope, or `None`
    /// when the log is empty. Local rollback only: once a record has been
    /// shared, removing it makes every peer's copy diverge.
    pub fn pop(&mut self) -> (r: Option<SignedRecord>)
        ensures
            old(self)@.len() == 0 ==> r is None && final(self)@ == old(self)@,
            old(self)@.len() > 0 ==> (r matches Some(e) && e@ == old(self)@.last() && final(self)@
                == old(self)@.drop_last()),
    {
        let r = self.records.pop();
        proof {
            if old(self)@.len() > 0 {
                assert(self@ =~= old(self)@.drop_last());
            }
        }
        r
    }

    /// Whether `advanced` begins with exactly this log's record sequence,
    /// and so may safely replace it. This is the fork and rollback defense:
    /// a candidate that diverges at any shared position, or that is shorter,
    /// is rejected. It is purely structural; the caller must still run the
    /// projector over the candidate before adopting it.
    pub fn can_advance_into(&self, advanced: &AclRecordLog) -> (r: bool)
        ensures
            r == self@.is_prefix_of(advanced@),
    {
        if self.records.len() > advanced.records.len() {
            proof {
                assert(!self@.is_prefix_of(advanced@));
            }
            return false;
        }
        let mut i: usize = 0;
        while i < self.records.len()
            invariant
                i <= self@.len() <= advanced@.len(),
                self@.len() == self.records.len(),
                forall|j: int| 0 <= j < i ==> self@[j] == advanced@[j],
            decreases self@.len() - i,
        {
            if !(self.records[i] == advanced.records[i]) {
                proof {
                    assert(self@[i as int] != advanced@[i as int]);
                    assert(!(self@ =~= advanced@.subrange(0, self@.len() as int)));
                }
                return false;
            }
            i = i + 1;
        }
        proof {
            assert(self@ =~= advanced@.subrange(0, self@.len() as int));
        }
        true
    }
}


/// The unsigned payload a bootstrap record carries: nothing but the root
/// key, introduced at position 0.
pub open spec fn bootstrap_record_view(k: Seq<u8>) -> RecordView {
    RecordView { last: Seq::empty(), keys: seq![k], permissions: Seq::empty() }
}

impl AclRecord {
    /// Encodes this record and wraps it in an envelope signed by `privkey`
    /// under the identifier `key_id`. `None` only when the provider fails to
    /// sign. Nothing is promised of the signature itself: the projector
    /// checks every signature it reads.
    pub fn sign(self, key_id: u32, privkey: &libp2p_identity::Keypair) -> (r: Option<SignedRecord>)
        requires
            crate::codec::record_bounded(self@),
        ensures
            r matches Some(env) ==> env@.signer == key_id && env@.record == crate::codec::enc_record(
                self@,
            ),
    {
        let serialized = self.encode_to_vec();
        match crate::crypto::sign_bytes(privkey, serialized.as_slice()) {
            Some(sig) => Some(SignedRecord { signer: key_id, signature: sig, record: serialized }),
            None => None,
        }
    }
}

impl SignedRecord {
    /// The self-signed bootstrap envelope for the given keypair: it
    /// introduces the keypair's public key as the root key. `None` when the
    /// provider fails to sign or hands back a key too large for the wire
    /// format.
    pub fn root(root: &libp2p_identity::Keypair) -> (r: Option<SignedRecord>)
        ensures
            r matches Some(env) ==> env@.signer == 0 && (exists|k: Seq<u8>|
                crate::crypto::key_wf(k) && env@.record == crate::codec::enc_record(
                    bootstrap_record_view(k),
                )),
    {
        let kb = crate::crypto::public_key_bytes(root);
        if kb.len() > u32::MAX as usize {
            return None;
        }
        let ghost kv = kb@;
        let rec = AclRecord::root(kb);
        proof {
            assert(rec@ == bootstrap_record_view(kv));
            assert(crate::codec::record_bounded(rec@));
        }
        match rec.sign(0, root) {
            Some(env) => {
                proof {
                    assert(crate::crypto::key_wf(kv) && env@.record == crate::codec::enc_record(
                        bootstrap_record_view(kv),
                    ));
                }
                Some(env)
            },
            None => None,
        }
    }

    /// The canonical textual form of the envelope: its binary form under the
    /// textual transport encoding.
    pub fn to_text(&self) -> (r: String)
        requires
            crate::codec::envelope_bounded(self@),
        ensures
            r@ == crate::codec::b64_of(crate::codec::enc_envelope(self@)),
    {
        let bytes = self.encode_to_vec();
        crate::codec::b64_encode(bytes.as_slice())
    }

    /// Reads an envelope back from its textual form. On any text the
    /// transport encoding produces, the result is the envelope those bytes
    /// mean, or `ParseError` when they mean none; every failure is
    /// `ParseError`.
    pub fn from_text(value: &str) -> (r: Result<SignedRecord, crate::AclError>)
        ensures
            match r {
                Ok(env) => forall|bb: Seq<u8>|
                    value@ == crate::codec::b64_of(bb) ==> crate::codec::spec_decode_envelope(bb)
                        == Some(env@),
                Err(e) => e == crate::AclError::ParseError && forall|bb: Seq<u8>|
                    value@ == crate::codec::b64_of(bb) ==> crate::codec::spec_decode_envelope(
                        bb,
                    ) is None,
            },
    {
        match crate::codec::b64_decode(value) {
            None => Err(crate::AclError::ParseError),
            Some(bytes) => match SignedRecord::decode(bytes.as_slice()) {
                Some(env) => Ok(env),
                None => Err(crate::AclError::ParseError),
            },
        }
    }
}

impl AclRecordLog {
    /// A log seeded with the bootstrap record for the given keypair, or
    /// `None` when the provider fails to sign.
    pub fn with_root(root: &libp2p_identity::Keypair) -> (r: Option<AclRecordLog>)
        ensures
            r matches Some(log) ==> log@.len() == 1 && log@[0].signer == 0 && (exists|k: Seq<u8>|
                crate::crypto::key_wf(k) && log@[0].record == crate::codec::enc_record(
                    bootstrap_record_view(k),
                )),
    {
        match SignedRecord::root(root) {
            None => None,
            Some(env) => {
                let ghost ev = env@;
                let mut log = AclRecordLog::default();
                let envs: Vec<SignedRecord> = vec![env];
                log.extend(envs.as_slice());
                proof {
                    assert(envs@[0]@ == ev);
                    assert(log@ =~= seq![ev]);
                }
                Some(log)
            },
        }
    }
}

// ---------------------------------------------------------------------------
// Laws of the prefix-extension rule.
// ---------------------------------------------------------------------------
/// A chain can always advance into itself.
pub proof fn lemma_advance_reflexive(chain: Seq<EnvelopeView>)
    ensures
        chain.is_prefix_of(chain),
{
    assert(chain =~= chain.subrange(0, chain.len() as int));
}

/// A chain advances into any extension of itself.
pub proof fn lemma_advance_extension(chain: Seq<EnvelopeView>, ext: Seq<EnvelopeView>)
    ensures
        chain.is_prefix_of(chain + ext),
{
    assert(chain =~= (chain + ext).subrange(0, chain.len() as int));
}

/// A candidate that diverges at a shared position, or that is shorter, is
/// rejected.
pub proof fn lemma_advance_diverged(chain: Seq<EnvelopeView>, cand: Seq<EnvelopeView>, i: int)
    requires
        0 <= i < chain.len(),
        i < cand.len(),
        chain[i] != cand[i],
    ensures
        !chain.is_prefix_of(cand),
{
    if chain.is_prefix_of(cand) {
        assert(chain[i] == cand.subrange(0, chain.len() as int)[i]);
        assert(false);
    }
}

} // verus!
