//! The capability projector: validates a record chain in order and derives
//! the keychain and the capability table from it, or rejects the chain with
//! the first error met.
//!
//! The meaning of a chain is the spec function [`project`]: a fold of
//! [`apply_envelope`] over the envelopes. The executable [`InterpretedAcl`]
//! is proved to compute exactly that fold.

use vstd::prelude::*;
use vstd::string::StringExecFns;
use crate::ACL_CAPS_ROOT;
use crate::AclError;
use crate::root_cap;
use crate::codec::spec_decode_record;
use crate::crypto::{key_ok, key_wf, sig_valid, verify_sig};
use crate::log::{AclPermission, AclRecord, AclRecordLog, AclRecordType, EnvelopeView,
    PermissionView, RecordView, SignedRecord};

verus! {

/// One entry of the capability table: `key` currently holds `cap`.
#[derive(Debug)]
pub struct CapEntry {
    pub key: u32,
    pub cap: String,
}

impl View for CapEntry {
    type V = (u32, Seq<char>);

    open spec fn view(&self) -> (u32, Seq<char>) {
        (self.key, self.cap@)
    }
}

impl DeepView for CapEntry {
    type V = (u32, Seq<char>);

    open spec fn deep_view(&self) -> (u32, Seq<char>) {
        self.view()
    }
}

impl Clone for CapEntry {
    fn clone(&self) -> (res: Self)
        ensures
            res@ == self@,
    {
        CapEntry { key: self.key, cap: self.cap.clone() }
    }
}

/// The projector's mathematical state: the keychain (encoded public keys,
/// indexed by key identifier) and the capability table (which key holds
/// which capability name).
pub struct AclStateView {
    pub keys: Seq<Seq<u8>>,
    pub caps: Seq<(u32, Seq<char>)>,
}

/// The state before any record is processed.
pub open spec fn initial_state() -> AclStateView {
    AclStateView { keys: Seq::empty(), caps: Seq::empty() }
}

/// Whether `k` currently holds the capability `c` literally (the root
/// capability does not substitute here).
pub open spec fn cap_held(caps: Seq<(u32, Seq<char>)>, k: u32, c: Seq<char>) -> bool {
    caps.contains((k, c))
}

/// Whether some key other than `k` currently holds the root capability.
pub open spec fn holds_root_other(caps: Seq<(u32, Seq<char>)>, k: u32) -> bool {
    exists|i: int| 0 <= i < caps.len() && (#[trigger] caps[i]).1 == root_cap() && caps[i].0 != k
}

/// Applying one grant: a repeated grant and a second root holder are
/// refused; otherwise the entry is added.
pub open spec fn grant_one(caps: Seq<(u32, Seq<char>)>, k: u32, c: Seq<char>) -> Result<
    Seq<(u32, Seq<char>)>,
    AclError,
> {
    if cap_held(caps, k, c) {
        Err(AclError::RepeatedGrant)
    } else if c == root_cap() && holds_root_other(caps, k) {
        Err(AclError::MultipleRoots)
    } else {
        Ok(caps.push((k, c)))
    }
}

/// The table without any `(k, c)` entry, order of the rest kept.
pub open spec fn remove_cap(caps: Seq<(u32, Seq<char>)>, k: u32, c: Seq<char>) -> Seq<
    (u32, Seq<char>),
>
    decreases caps.len(),
{
    if caps.len() == 0 {
        Seq::empty()
    } else if caps[0] == (k, c) {
        remove_cap(caps.drop_first(), k, c)
    } else {
        seq![caps[0]] + remove_cap(caps.drop_first(), k, c)
    }
}

/// Applying one deny: refused unless the capability is currently held.
pub open spec fn deny_one(caps: Seq<(u32, Seq<char>)>, k: u32, c: Seq<char>) -> Result<
    Seq<(u32, Seq<char>)>,
    AclError,
> {
    if !cap_held(caps, k, c) {
        Err(AclError::DenyingNotGranted)
    } else {
        Ok(remove_cap(caps, k, c))
    }
}

/// One permission applied to one target.
pub open spec fn apply_one(caps: Seq<(u32, Seq<char>)>, grant: bool, k: u32, c: Seq<char>) -> Result<
    Seq<(u32, Seq<char>)>,
    AclError,
> {
    if grant {
        grant_one(caps, k, c)
    } else {
        deny_one(caps, k, c)
    }
}

/// One permission applied to its targets, in list order.
pub open spec fn apply_targets(
    caps: Seq<(u32, Seq<char>)>,
    grant: bool,
    c: Seq<char>,
    ks: Seq<u32>,
) -> Result<Seq<(u32, Seq<char>)>, AclError>
    decreases ks.len(),
{
    if ks.len() == 0 {
        Ok(caps)
    } else {
        match apply_one(caps, grant, ks[0], c) {
            Ok(c2) => apply_targets(c2, grant, c, ks.drop_first()),
            Err(e) => Err(e),
        }
    }
}

/// A record's permissions applied in list order.
pub open spec fn apply_perms(caps: Seq<(u32, Seq<char>)>, ps: Seq<PermissionView>) -> Result<
    Seq<(u32, Seq<char>)>,
    AclError,
>
    decreases ps.len(),
{
    if ps.len() == 0 {
        Ok(caps)
    } else {
        match apply_targets(caps, ps[0].grant, ps[0].cap, ps[0].key_ids) {
            Ok(c2) => apply_perms(c2, ps.drop_first()),
            Err(e) => Err(e),
        }
    }
}

/// A record's introduced keys appended to the keychain in list order; a key
/// the identity provider cannot decode rejects the record.
pub open spec fn intro_keys(keys: Seq<Seq<u8>>, new: Seq<Seq<u8>>) -> Result<
    Seq<Seq<u8>>,
    AclError,
>
    decreases new.len(),
{
    if new.len() == 0 {
        Ok(keys)
    } else if !key_wf(new[0]) {
        Err(AclError::ParseError)
    } else {
        intro_keys(keys.push(new[0]), new.drop_first())
    }
}

/// The shape the first record must have: signed by key identifier 0, no
/// predecessor, no permissions, and at least the root key introduced at
/// position 0.
pub open spec fn bootstrap_shape(env: EnvelopeView, rec: RecordView) -> bool {
    &&& env.signer == 0
    &&& rec.last.len() == 0
    &&& rec.permissions.len() == 0
    &&& rec.keys.len() >= 1
}

/// How one envelope at position `i` advances the state; `prev` is the
/// encoded bytes of the preceding unsigned record (empty at position 0).
///
/// The bootstrap record is self-signing: its signature is checked against
/// the first key it introduces. Processing it seeds the capability table
/// with the root capability for key identifier 0, so the bootstrap key
/// counts as the first root holder.
pub open spec fn apply_envelope(
    st: AclStateView,
    env: EnvelopeView,
    i: int,
    prev: Seq<u8>,
) -> Result<AclStateView, AclError> {
    match spec_decode_record(env.record) {
        None => Err(AclError::ParseError),
        Some(rec) => if i == 0 {
            if !bootstrap_shape(env, rec) {
                Err(AclError::FirstNotRoot)
            } else if !key_wf(rec.keys[0]) {
                Err(AclError::ParseError)
            } else if !sig_valid(rec.keys[0], env.record, env.signature) {
                Err(AclError::BadSignature)
            } else {
                match intro_keys(st.keys, rec.keys) {
                    Err(e) => Err(e),
                    Ok(ks) => Ok(
                        AclStateView { keys: ks, caps: st.caps.push((0u32, root_cap())) },
                    ),
                }
            }
        } else {
            if rec.last != prev {
                Err(AclError::ChainBroken)
            } else if env.signer >= st.keys.len() {
                Err(AclError::UnknownSigner)
            } else if !sig_valid(st.keys[env.signer as int], env.record, env.signature) {
                Err(AclError::BadSignature)
            } else {
                match intro_keys(st.keys, rec.keys) {
                    Err(e) => Err(e),
                    Ok(ks) => match apply_perms(st.caps, rec.permissions) {
                        Err(e) => Err(e),
                        Ok(cs) => Ok(AclStateView { keys: ks, caps: cs }),
                    },
                }
            }
        },
    }
}

/// The predecessor bytes a record at position `i` must reference.
pub open spec fn prev_bytes(chain: Seq<EnvelopeView>, i: int) -> Seq<u8> {
    if i >= 1 {
        chain[i - 1].record
    } else {
        Seq::empty()
    }
}

/// The state after the first `n` records of the chain, or the first error.
pub open spec fn project_prefix(chain: Seq<EnvelopeView>, n: int) -> Result<
    AclStateView,
    AclError,
>
    decreases n,
{
    if n <= 0 {
        Ok(initial_state())
    } else {
        match project_prefix(chain, n - 1) {
            Err(e) => Err(e),
            Ok(st) => apply_envelope(st, chain[n - 1], n - 1, prev_bytes(chain, n - 1)),
        }
    }
}

/// The meaning of a chain: the state it projects to, or the first error, in
/// chain order.
pub open spec fn project(chain: Seq<EnvelopeView>) -> Result<AclStateView, AclError> {
    project_prefix(chain, chain.len() as int)
}

/// Whether `k` may act under the name `c`: it holds `c`, or it holds the
/// root capability, which satisfies every query.
pub open spec fn spec_has_capability(st: AclStateView, k: u32, c: Seq<char>) -> bool {
    cap_held(st.caps, k, c) || cap_held(st.caps, k, root_cap())
}

/// Projecting a prefix never looks past it: extending the chain does not
/// change the state any prefix projects to.
pub proof fn lemma_project_prefix_stable(chain: Seq<EnvelopeView>, longer: Seq<EnvelopeView>, n: int)
    requires
        n <= chain.len(),
        chain.is_prefix_of(longer),
    ensures
        project_prefix(longer, n) == project_prefix(chain, n),
    decreases n,
{
    if n > 0 {
        lemma_project_prefix_stable(chain, longer, n - 1);
        assert(longer[n - 1] == chain[n - 1]) by {
            assert(chain =~= longer.subrange(0, chain.len() as int));
        }
        if n - 1 >= 1 {
            assert(longer[n - 2] == chain[n - 2]) by {
                assert(chain =~= longer.subrange(0, chain.len() as int));
            }
        }
    }
}

/// Continuing a permission fold: the permissions in `rest` applied after the
/// outcome so far.
pub open spec fn finish_perms(
    so_far: Result<Seq<(u32, Seq<char>)>, AclError>,
    rest: Seq<PermissionView>,
) -> Result<Seq<(u32, Seq<char>)>, AclError> {
    match so_far {
        Ok(c) => apply_perms(c, rest),
        Err(e) => Err(e),
    }
}

/// A failed prefix fails the whole chain, whatever follows.
pub proof fn lemma_project_prefix_error(chain: Seq<EnvelopeView>, m: int, n: int, e: AclError)
    requires
        0 <= m <= n,
        project_prefix(chain, m) == Err::<AclStateView, AclError>(e),
    ensures
        project_prefix(chain, n) == Err::<AclStateView, AclError>(e),
    decreases n,
{
    if n > m {
        lemma_project_prefix_error(chain, m, n - 1, e);
    }
}

/// Appending one envelope advances the projection by exactly one
/// application of [`apply_envelope`].
pub proof fn lemma_project_push(chain: Seq<EnvelopeView>, st: AclStateView, env: EnvelopeView)
    requires
        project(chain) == Ok::<AclStateView, AclError>(st),
    ensures
        project(chain.push(env)) == apply_envelope(
            st,
            env,
            chain.len() as int,
            prev_bytes(chain.push(env), chain.len() as int),
        ),
{
    let c2 = chain.push(env);
    assert(chain.is_prefix_of(c2)) by {
        assert(chain =~= c2.subrange(0, chain.len() as int));
    }
    lemma_project_prefix_stable(chain, c2, chain.len() as int);
    assert(c2[c2.len() - 1] == env);
}

fn root_cap_string() -> (s: String)
    ensures
        s@ == root_cap(),
{
    String::from_str(ACL_CAPS_ROOT)
}

fn clone_bytes(v: &Vec<u8>) -> (r: Vec<u8>)
    ensures
        r@ == v@,
{
    let r = v.clone();
    proof {
        assert(r@ =~= v@);
    }
    r
}

fn clone_keychain(v: &Vec<Vec<u8>>) -> (r: Vec<Vec<u8>>)
    ensures
        r.deep_view() == v.deep_view(),
{
    let mut r: Vec<Vec<u8>> = Vec::new();
    let mut i: usize = 0;
    while i < v.len()
        invariant
            i <= v.len(),
            r.len() == i,
            forall|j: int| 0 <= j < i ==> r.deep_view()[j] == v.deep_view()[j],
        decreases v.len() - i,
    {
        let e = clone_bytes(&v[i]);
        let ghost ev = e@;
        r.push(e);
        proof {
            assert(r.deep_view()[i as int] =~= ev);
            assert(v.deep_view()[i as int] =~= v@[i as int]@);
        }
        i = i + 1;
    }
    proof {
        assert(r.deep_view() =~= v.deep_view());
    }
    r
}

fn clone_table(v: &Vec<CapEntry>) -> (r: Vec<CapEntry>)
    ensures
        r.deep_view() == v.deep_view(),
{
    let mut r: Vec<CapEntry> = Vec::new();
    let mut i: usize = 0;
    while i < v.len()
        invariant
            i <= v.len(),
            r.len() == i,
            forall|j: int| 0 <= j < i ==> r.deep_view()[j] == v.deep_view()[j],
        decreases v.len() - i,
    {
        let e = v[i].clone();
        let ghost ev = e@;
        r.push(e);
        proof {
            assert(r.deep_view()[i as int] == ev);
        }
        i = i + 1;
    }
    proof {
        assert(r.deep_view() =~= v.deep_view());
    }
    r
}

fn table_contains(table: &Vec<CapEntry>, k: u32, c: &String) -> (r: bool)
    ensures
        r == cap_held(table.deep_view(), k, c@),
{
    let mut i: usize = 0;
    while i < table.len()
        invariant
            i <= table.len(),
            forall|j: int| 0 <= j < i ==> table.deep_view()[j] != (k, c@),
        decreases table.len() - i,
    {
        let e = &table[i];
        if e.key == k && e.cap == *c {
            proof {
                assert(table.deep_view()[i as int] == (k, c@));
                assert(table.deep_view().contains((k, c@)));
            }
            return true;
        }
        proof {
            assert(table.deep_view()[i as int] == (table@[i as int].key, table@[i as int].cap@));
            assert(table.deep_view()[i as int] != (k, c@));
        }
        i = i + 1;
    }
    proof {
        if table.deep_view().contains((k, c@)) {
            let j = choose|j: int|
                0 <= j < table.deep_view().len() && table.deep_view()[j] == (k, c@);
            assert(false);
        }
    }
    false
}

fn other_holds_root(table: &Vec<CapEntry>, k: u32, root_str: &String) -> (r: bool)
    requires
        root_str@ == root_cap(),
    ensures
        r == holds_root_other(table.deep_view(), k),
{
    let mut i: usize = 0;
    while i < table.len()
        invariant
            root_str@ == root_cap(),
            i <= table.len(),
            forall|j: int|
                0 <= j < i ==> !((#[trigger] table@[j]).cap@ == root_cap() && table@[j].key != k),
        decreases table.len() - i,
    {
        let e = &table[i];
        if e.cap == *root_str && e.key != k {
            proof {
                assert(holds_root_other(table.deep_view(), k)) by {
                    assert(table.deep_view()[i as int] == (table@[i as int].key,
                    table@[i as int].cap@));
                    assert(table@[i as int].cap@ == root_cap());
                    assert(table@[i as int].key != k);
                }
            }
            return true;
        }
        i = i + 1;
    }
    proof {
        if holds_root_other(table.deep_view(), k) {
            let j = choose|j: int|
                0 <= j < table.deep_view().len() && (#[trigger] table.deep_view()[j]).1
                    == root_cap() && table.deep_view()[j].0 != k;
            assert(table.deep_view()[j] == (table@[j].key, table@[j].cap@));
            assert(false);
        }
    }
    false
}

fn remove_cap_exec(table: &Vec<CapEntry>, k: u32, c: &String) -> (r: Vec<CapEntry>)
    ensures
        r.deep_view() == remove_cap(table.deep_view(), k, c@),
{
    let ghost tv = table.deep_view();
    let mut out: Vec<CapEntry> = Vec::new();
    let mut i: usize = 0;
    proof {
        assert(tv.skip(0) =~= tv);
        assert(out.deep_view() =~= Seq::<(u32, Seq<char>)>::empty());
        assert(Seq::<(u32, Seq<char>)>::empty() + remove_cap(tv, k, c@) =~= remove_cap(tv, k, c@));
    }
    while i < table.len()
        invariant
            i <= table.len(),
            tv == table.deep_view(),
            remove_cap(tv, k, c@) == out.deep_view() + remove_cap(tv.skip(i as int), k, c@),
        decreases table.len() - i,
    {
        let e = &table[i];
        let ghost pre = out.deep_view();
        proof {
            assert(tv.skip(i as int)[0] == tv[i as int]);
            assert(tv.skip(i as int).drop_first() =~= tv.skip(i + 1 as int));
            assert(tv[i as int] == (table@[i as int].key, table@[i as int].cap@));
        }
        if e.key == k && e.cap == *c {
            proof {
                assert(tv[i as int] == (k, c@));
            }
        } else {
            let ec = e.clone();
            out.push(ec);
            proof {
                assert(tv[i as int] != (k, c@));
                assert(out.deep_view() =~= pre.push(tv[i as int]));
                assert(pre + (seq![tv[i as int]] + remove_cap(tv.skip(i + 1 as int), k, c@))
                    =~= out.deep_view() + remove_cap(tv.skip(i + 1 as int), k, c@));
            }
        }
        i = i + 1;
    }
    proof {
        assert(tv.skip(tv.len() as int) =~= Seq::<(u32, Seq<char>)>::empty());
        assert(out.deep_view() + Seq::<(u32, Seq<char>)>::empty() =~= out.deep_view());
    }
    out
}

fn apply_grant(table: &mut Vec<CapEntry>, k: u32, c: &String, root_str: &String) -> (r: Result<
    (),
    AclError,
>)
    requires
        root_str@ == root_cap(),
    ensures
        match r {
            Ok(()) => grant_one(old(table).deep_view(), k, c@) == Ok::<_, AclError>(
                final(table).deep_view(),
            ),
            Err(e) => grant_one(old(table).deep_view(), k, c@) == Err::<Seq<(u32, Seq<char>)>, _>(
                e,
            ) && final(table)@ == old(table)@,
        },
{
    if table_contains(table, k, c) {
        return Err(AclError::RepeatedGrant);
    }
    let is_root = *c == *root_str;
    if is_root {
        if other_holds_root(table, k, root_str) {
            return Err(AclError::MultipleRoots);
        }
    }
    let ghost pre = table.deep_view();
    let cc = c.clone();
    table.push(CapEntry { key: k, cap: cc });
    proof {
        assert(table.deep_view() =~= pre.push((k, c@)));
    }
    Ok(())
}

fn apply_deny(table: &mut Vec<CapEntry>, k: u32, c: &String) -> (r: Result<(), AclError>)
    ensures
        match r {
            Ok(()) => deny_one(old(table).deep_view(), k, c@) == Ok::<_, AclError>(
                final(table).deep_view(),
            ),
            Err(e) => deny_one(old(table).deep_view(), k, c@) == Err::<Seq<(u32, Seq<char>)>, _>(
                e,
            ) && final(table)@ == old(table)@,
        },
{
    if !table_contains(table, k, c) {
        return Err(AclError::DenyingNotGranted);
    }
    let nt = remove_cap_exec(table, k, c);
    *table = nt;
    Ok(())
}

/// The capability projector: the keychain and capability table derived from
/// the validated prefix it has processed, together with that prefix.
#[derive(Debug)]
pub struct InterpretedAcl {
    pub keychain: Vec<Vec<u8>>,
    pub table: Vec<CapEntry>,
    pub log: AclRecordLog,
}

impl View for InterpretedAcl {
    type V = AclStateView;

    open spec fn view(&self) -> AclStateView {
        AclStateView { keys: self.keychain.deep_view(), caps: self.table.deep_view() }
    }
}

impl InterpretedAcl {
    /// The projector's records project exactly to its state.
    pub open spec fn wf(self) -> bool {
        project(self.log@) == Ok::<AclStateView, AclError>(self@)
    }
}

impl Default for InterpretedAcl {
    fn default() -> (res: Self)
        ensures
            res@ == initial_state(),
            res.wf(),
            res.log@ == Seq::<EnvelopeView>::empty(),
    {
        let res = InterpretedAcl {
            keychain: Vec::new(),
            table: Vec::new(),
            log: AclRecordLog::default(),
        };
        proof {
            assert(res@.keys =~= initial_state().keys);
            assert(res@.caps =~= initial_state().caps);
        }
        res
    }
}

impl InterpretedAcl {
    /// The root key of the chain: the key at index 0 of the keychain, if
    /// any record has been processed.
    pub fn root(&self) -> (r: Option<&Vec<u8>>)
        ensures
            self@.keys.len() == 0 ==> r is None,
            self@.keys.len() > 0 ==> (r matches Some(k) && k@ == self@.keys[0]),
    {
        if self.keychain.len() > 0 {
            proof {
                assert(self.keychain@[0].deep_view() =~= self.keychain@[0]@);
            }
            Some(&self.keychain[0])
        } else {
            None
        }
    }

    /// Whether `key_id` may act under `capability`: it holds that name, or
    /// it holds the root capability.
    pub fn has_capability(&self, key_id: u32, capability: &str) -> (r: bool)
        ensures
            r == spec_has_capability(self@, key_id, capability@),
    {
        let cs = String::from_str(capability);
        if table_contains(&self.table, key_id, &cs) {
            return true;
        }
        let root_str = root_cap_string();
        table_contains(&self.table, key_id, &root_str)
    }
}


fn intro_keys_exec(keys: &mut Vec<Vec<u8>>, new: &Vec<Vec<u8>>) -> (r: Result<(), AclError>)
    ensures
        match r {
            Ok(()) => intro_keys(old(keys).deep_view(), new.deep_view()) == Ok::<
                Seq<Seq<u8>>,
                AclError,
            >(final(keys).deep_view()),
            Err(e) => intro_keys(old(keys).deep_view(), new.deep_view()) == Err::<Seq<Seq<u8>>, _>(
                e,
            ),
        },
{
    let ghost nv = new.deep_view();
    let mut w: usize = 0;
    proof {
        assert(nv.skip(0) =~= nv);
    }
    while w < new.len()
        invariant
            w <= new.len(),
            nv == new.deep_view(),
            new.len() == nv.len(),
            intro_keys(old(keys).deep_view(), nv) == intro_keys(
                keys.deep_view(),
                nv.skip(w as int),
            ),
        decreases new.len() - w,
    {
        proof {
            assert(nv.skip(w as int)[0] == nv[w as int]);
            assert(nv[w as int] == new@[w as int].deep_view());
            assert(new@[w as int].deep_view() =~= new@[w as int]@);
            assert(nv.skip(w as int).drop_first() =~= nv.skip(w + 1 as int));
        }
        if !key_ok(new[w].as_slice()) {
            return Err(AclError::ParseError);
        }
        let kb = clone_bytes(&new[w]);
        let ghost pre = keys.deep_view();
        keys.push(kb);
        proof {
            assert(keys.deep_view() =~= pre.push(nv[w as int]));
        }
        w = w + 1;
    }
    proof {
        assert(nv.skip(nv.len() as int) =~= Seq::<Seq<u8>>::empty());
    }
    Ok(())
}

fn apply_perms_exec(table: &mut Vec<CapEntry>, perms: &Vec<AclPermission>, root_str: &String) -> (r:
    Result<(), AclError>)
    requires
        root_str@ == root_cap(),
    ensures
        match r {
            Ok(()) => apply_perms(old(table).deep_view(), perms.deep_view()) == Ok::<
                Seq<(u32, Seq<char>)>,
                AclError,
            >(final(table).deep_view()),
            Err(e) => apply_perms(old(table).deep_view(), perms.deep_view()) == Err::<
                Seq<(u32, Seq<char>)>,
                _,
            >(e),
        },
{
    let ghost pv = perms.deep_view();
    let mut j: usize = 0;
    proof {
        assert(pv.skip(0) =~= pv);
    }
    while j < perms.len()
        invariant
            root_str@ == root_cap(),
            j <= perms.len(),
            pv == perms.deep_view(),
            perms.len() == pv.len(),
            apply_perms(old(table).deep_view(), pv) == finish_perms(
                Ok(table.deep_view()),
                pv.skip(j as int),
            ),
        decreases perms.len() - j,
    {
        let p = &perms[j];
        let ghost pj = pv[j as int];
        let ghost tv0 = table.deep_view();
        proof {
            assert(pj == perms@[j as int].deep_view());
            assert(pv.skip(j as int)[0] == pj);
            assert(pv.skip(j as int).drop_first() =~= pv.skip(j + 1 as int));
            assert(pj.key_ids.skip(0) =~= pj.key_ids);
            let at = apply_targets(tv0, pj.grant, pj.cap, pj.key_ids);
            assert(apply_perms(old(table).deep_view(), pv) == finish_perms(
                at,
                pv.skip(j + 1 as int),
            ));
        }
        let is_grant = match p.action {
            AclRecordType::Grant => true,
            AclRecordType::Deny => false,
        };
        let mut t: usize = 0;
        while t < p.key_id.len()
            invariant
                root_str@ == root_cap(),
                t <= p.key_id.len(),
                p.key_id@ == pj.key_ids,
                p.cap@ == pj.cap,
                is_grant == pj.grant,
                0 <= j < pv.len(),
                pv == perms.deep_view(),
                apply_perms(old(table).deep_view(), pv) == finish_perms(
                    apply_targets(
                        table.deep_view(),
                        pj.grant,
                        pj.cap,
                        pj.key_ids.skip(t as int),
                    ),
                    pv.skip(j + 1 as int),
                ),
            decreases p.key_id.len() - t,
        {
            proof {
                assert(pj.key_ids.skip(t as int)[0] == pj.key_ids[t as int]);
                assert(pj.key_ids.skip(t as int).drop_first() =~= pj.key_ids.skip(t + 1 as int));
            }
            let tid = p.key_id[t];
            let ghost tvc = table.deep_view();
            let res = if is_grant {
                apply_grant(table, tid, &p.cap, root_str)
            } else {
                apply_deny(table, tid, &p.cap)
            };
            match res {
                Err(e) => {
                    proof {
                        assert(table.deep_view() =~= tvc);
                        assert(apply_one(tvc, pj.grant, pj.key_ids[t as int], pj.cap)
                            == Err::<Seq<(u32, Seq<char>)>, AclError>(e));
                        assert(apply_targets(tvc, pj.grant, pj.cap, pj.key_ids.skip(t as int))
                            == Err::<Seq<(u32, Seq<char>)>, AclError>(e));
                    }
                    return Err(e);
                },
                Ok(()) => {
                    proof {
                        assert(apply_one(tvc, pj.grant, pj.key_ids[t as int], pj.cap) == Ok::<
                            Seq<(u32, Seq<char>)>,
                            AclError,
                        >(table.deep_view()));
                    }
                },
            }
            t = t + 1;
        }
        proof {
            assert(pj.key_ids.skip(pj.key_ids.len() as int) =~= Seq::<u32>::empty());
        }
        j = j + 1;
    }
    proof {
        assert(pv.skip(pv.len() as int) =~= Seq::<PermissionView>::empty());
    }
    Ok(())
}

impl InterpretedAcl {
    /// Validates one envelope as the next record of the processed chain and
    /// applies it; on failure the projector is unchanged and the error is
    /// the one [`apply_envelope`] gives for that envelope.
    pub fn add(&mut self, record: &SignedRecord) -> (r: Result<(), AclError>)
        requires
            old(self).wf(),
        ensures
            final(self).wf(),
            match r {
                Ok(()) => final(self).log@ == old(self).log@.push(record@) && project(
                    final(self).log@,
                ) == Ok::<AclStateView, AclError>(final(self)@),
                Err(e) => final(self)@ == old(self)@ && final(self).log@ == old(self).log@
                    && project(old(self).log@.push(record@)) == Err::<AclStateView, AclError>(e),
            },
    {
        let ghost st0 = self@;
        let ghost chain0 = self.log@;
        let ghost env_v = record@;
        let ghost idx = chain0.len() as int;
        let ghost prevb = prev_bytes(chain0.push(env_v), idx);
        proof {
            lemma_project_push(chain0, st0, env_v);
        }
        let ghost step = apply_envelope(st0, env_v, idx, prevb);

        let n = self.log.records.len();
        proof {
            assert(chain0.len() == n);
        }
        let rec = match AclRecord::decode(record.record.as_slice()) {
            None => {
                return Err(AclError::ParseError);
            },
            Some(rec) => rec,
        };
        let ghost rec_v = rec@;
        if n == 0 {
            if !(record.signer == 0 && rec.last.len() == 0 && rec.permissions.len() == 0
                && rec.keys.len() >= 1) {
                return Err(AclError::FirstNotRoot);
            }
            proof {
                assert(bootstrap_shape(env_v, rec_v));
                assert(rec_v.keys[0] == rec.keys@[0].deep_view());
                assert(rec.keys@[0].deep_view() =~= rec.keys@[0]@);
            }
            if !key_ok(rec.keys[0].as_slice()) {
                return Err(AclError::ParseError);
            }
            if !verify_sig(
                rec.keys[0].as_slice(),
                record.record.as_slice(),
                record.signature.as_slice(),
            ) {
                return Err(AclError::BadSignature);
            }
            let mut keys2 = clone_keychain(&self.keychain);
            match intro_keys_exec(&mut keys2, &rec.keys) {
                Err(e) => {
                    return Err(e);
                },
                Ok(()) => {},
            }
            self.keychain = keys2;
            let root_str = root_cap_string();
            let ghost pre_caps = self.table.deep_view();
            self.table.push(CapEntry { key: 0, cap: root_str });
            self.log.records.push(record.clone());
            proof {
                assert(self.table.deep_view() =~= pre_caps.push((0u32, root_cap())));
                assert(self.log@ =~= chain0.push(env_v));
                assert(step == Ok::<AclStateView, AclError>(self@));
            }
            Ok(())
        } else {
            let prev_rec = &self.log.records[n - 1];
            proof {
                assert(chain0[idx - 1] == self.log.records@[n - 1].deep_view());
                assert(prevb == prev_rec.record@);
            }
            if !(rec.last == prev_rec.record) {
                return Err(AclError::ChainBroken);
            }
            if record.signer as usize >= self.keychain.len() {
                proof {
                    assert(st0.keys.len() == self.keychain@.len());
                    assert(rec_v.last == prevb);
                    assert(env_v.signer >= st0.keys.len());
                    assert(step == Err::<AclStateView, AclError>(AclError::UnknownSigner));
                }
                return Err(AclError::UnknownSigner);
            }
            let sidx = record.signer as usize;
            proof {
                assert(st0.keys[env_v.signer as int] == self.keychain@[
                    sidx as int
                ].deep_view());
                assert(self.keychain@[sidx as int].deep_view() =~= self.keychain@[sidx as int]@);
            }
            if !verify_sig(
                self.keychain[sidx].as_slice(),
                record.record.as_slice(),
                record.signature.as_slice(),
            ) {
                proof {
                    assert(rec_v.last == prevb);
                    assert(!sig_valid(
                        st0.keys[env_v.signer as int],
                        env_v.record,
                        env_v.signature,
                    ));
                    assert(step == Err::<AclStateView, AclError>(AclError::BadSignature));
                }
                return Err(AclError::BadSignature);
            }
            let mut keys2 = clone_keychain(&self.keychain);
            match intro_keys_exec(&mut keys2, &rec.keys) {
                Err(e) => {
                    proof {
                        assert(rec_v.last == prevb);
                        assert(sig_valid(
                            st0.keys[env_v.signer as int],
                            env_v.record,
                            env_v.signature,
                        ));
                        assert(intro_keys(st0.keys, rec_v.keys) == Err::<Seq<Seq<u8>>, AclError>(
                            e,
                        ));
                        assert(step == Err::<AclStateView, AclError>(e));
                    }
                    return Err(e);
                },
                Ok(()) => {},
            }
            let mut caps2 = clone_table(&self.table);
            let root_str = root_cap_string();
            match apply_perms_exec(&mut caps2, &rec.permissions, &root_str) {
                Err(e) => {
                    proof {
                        assert(rec_v.last == prevb);
                        assert(sig_valid(
                            st0.keys[env_v.signer as int],
                            env_v.record,
                            env_v.signature,
                        ));
                        assert(intro_keys(st0.keys, rec_v.keys) == Ok::<Seq<Seq<u8>>, AclError>(
                            keys2.deep_view(),
                        ));
                        assert(apply_perms(st0.caps, rec_v.permissions) == Err::<
                            Seq<(u32, Seq<char>)>,
                            AclError,
                        >(e));
                        assert(step == Err::<AclStateView, AclError>(e));
                    }
                    return Err(e);
                },
                Ok(()) => {},
            }
            self.keychain = keys2;
            self.table = caps2;
            self.log.records.push(record.clone());
            proof {
                assert(self.log@ =~= chain0.push(env_v));
                assert(spec_decode_record(env_v.record) == Some(rec_v));
                assert(rec_v.last == prevb);
                assert(!(env_v.signer >= st0.keys.len()));
                assert(sig_valid(st0.keys[env_v.signer as int], env_v.record, env_v.signature));
                assert(intro_keys(st0.keys, rec_v.keys) == Ok::<Seq<Seq<u8>>, AclError>(
                    self.keychain.deep_view(),
                ));
                assert(apply_perms(st0.caps, rec_v.permissions) == Ok::<
                    Seq<(u32, Seq<char>)>,
                    AclError,
                >(self.table.deep_view()));
                assert(step == Ok::<AclStateView, AclError>(self@));
            }
            Ok(())
        }
    }

    /// Projects a whole chain: processes every record in order and returns
    /// the projector, or the first error, exactly as [`project`] gives it.
    pub fn new(log: &AclRecordLog) -> (r: Result<InterpretedAcl, AclError>)
        ensures
            match r {
                Ok(acl) => project(log@) == Ok::<AclStateView, AclError>(acl@) && acl.wf()
                    && acl.log@ == log@,
                Err(e) => project(log@) == Err::<AclStateView, AclError>(e),
            },
    {
        let mut acl = InterpretedAcl::default();
        let mut i: usize = 0;
        proof {
            assert(log@.take(0) =~= Seq::<EnvelopeView>::empty());
        }
        while i < log.records.len()
            invariant
                i <= log.records.len(),
                log.records.len() == log@.len(),
                acl.wf(),
                acl.log@ == log@.take(i as int),
            decreases log.records.len() - i,
        {
            proof {
                assert(log.records@[i as int].deep_view() == log@[i as int]);
            }
            match acl.add(&log.records[i]) {
                Ok(()) => {
                    proof {
                        assert(log@.take(i as int).push(log@[i as int]) =~= log@.take(
                            i + 1 as int,
                        ));
                    }
                },
                Err(e) => {
                    proof {
                        let failed = log@.take(i as int).push(log@[i as int]);
                        assert(failed =~= log@.take(i + 1 as int));
                        assert(log@.take(i + 1 as int).is_prefix_of(log@)) by {
                            assert(log@.take(i + 1 as int) =~= log@.subrange(0, i + 1 as int));
                        }
                        lemma_project_prefix_stable(log@.take(i + 1 as int), log@, i + 1 as int);
                        lemma_project_prefix_error(log@, i + 1 as int, log@.len() as int, e);
                    }
                    return Err(e);
                },
            }
            i = i + 1;
        }
        proof {
            assert(log@.take(log@.len() as int) =~= log@);
        }
        Ok(acl)
    }
}


// ---------------------------------------------------------------------------
// Laws of the projection.
// ---------------------------------------------------------------------------
/// Introducing keys appends them to the keychain in list order.
pub proof fn lemma_intro_keys_ok(keys: Seq<Seq<u8>>, new: Seq<Seq<u8>>, ks: Seq<Seq<u8>>)
    requires
        intro_keys(keys, new) == Ok::<Seq<Seq<u8>>, AclError>(ks),
    ensures
        ks == keys + new,
    decreases new.len(),
{
    if new.len() == 0 {
        assert(keys + new =~= keys);
    } else {
        lemma_intro_keys_ok(keys.push(new[0]), new.drop_first(), ks);
        assert(keys.push(new[0]) + new.drop_first() =~= keys + new);
    }
}

/// A valid bootstrap-only chain yields exactly the introduced keys, and key
/// identifier 0 — the root key — satisfies every capability query.
pub proof fn lemma_bootstrap_projection(chain: Seq<EnvelopeView>, st: AclStateView)
    requires
        chain.len() == 1,
        project(chain) == Ok::<AclStateView, AclError>(st),
    ensures
        (spec_decode_record(chain[0].record) matches Some(rec) && st.keys == rec.keys),
        cap_held(st.caps, 0u32, root_cap()),
        forall|c: Seq<char>| spec_has_capability(st, 0u32, c),
{
    let step = apply_envelope(initial_state(), chain[0], 0, prev_bytes(chain, 0));
    assert(project_prefix(chain, 0) == Ok::<AclStateView, AclError>(initial_state()));
    assert(project_prefix(chain, 1) == step);
    let rec = spec_decode_record(chain[0].record)->Some_0;
    let ks = intro_keys(Seq::empty(), rec.keys)->Ok_0;
    lemma_intro_keys_ok(Seq::empty(), rec.keys, ks);
    assert(Seq::<Seq<u8>>::empty() + rec.keys =~= rec.keys);
    assert(st.caps == Seq::<(u32, Seq<char>)>::empty().push((0u32, root_cap())));
    assert(st.caps[0] == (0u32, root_cap()));
    assert(st.caps.contains((0u32, root_cap())));
}

/// A chain whose first record decodes but is not a well-formed bootstrap
/// record fails projection with FirstNotRoot, whatever follows it.
pub proof fn lemma_first_not_root(chain: Seq<EnvelopeView>, rec: RecordView)
    requires
        chain.len() >= 1,
        spec_decode_record(chain[0].record) == Some(rec),
        !bootstrap_shape(chain[0], rec),
    ensures
        project(chain) == Err::<AclStateView, AclError>(AclError::FirstNotRoot),
{
    assert(project_prefix(chain, 0) == Ok::<AclStateView, AclError>(initial_state()));
    assert(project_prefix(chain, 1) == Err::<AclStateView, AclError>(AclError::FirstNotRoot));
    lemma_project_prefix_error(chain, 1, chain.len() as int, AclError::FirstNotRoot);
}

/// Granting a capability to a key that already holds it fails with
/// RepeatedGrant.
pub proof fn lemma_repeated_grant(caps: Seq<(u32, Seq<char>)>, k: u32, c: Seq<char>)
    requires
        cap_held(caps, k, c),
    ensures
        grant_one(caps, k, c) == Err::<Seq<(u32, Seq<char>)>, AclError>(AclError::RepeatedGrant),
{
}

/// A granted capability is held afterwards.
pub proof fn lemma_grant_then_held(
    caps: Seq<(u32, Seq<char>)>,
    k: u32,
    c: Seq<char>,
    caps2: Seq<(u32, Seq<char>)>,
)
    requires
        grant_one(caps, k, c) == Ok::<Seq<(u32, Seq<char>)>, AclError>(caps2),
    ensures
        cap_held(caps2, k, c),
{
    assert(caps2[caps2.len() - 1] == (k, c));
    assert(caps2.contains((k, c)));
}

/// Denying a capability that is not held fails with DenyingNotGranted.
pub proof fn lemma_deny_not_granted(caps: Seq<(u32, Seq<char>)>, k: u32, c: Seq<char>)
    requires
        !cap_held(caps, k, c),
    ensures
        deny_one(caps, k, c) == Err::<Seq<(u32, Seq<char>)>, AclError>(
            AclError::DenyingNotGranted,
        ),
{
}

/// What the table holds after a removal: everything it held, except the
/// removed pair.
pub proof fn lemma_remove_cap_spec(
    caps: Seq<(u32, Seq<char>)>,
    k: u32,
    c: Seq<char>,
    p: (u32, Seq<char>),
)
    ensures
        remove_cap(caps, k, c).contains(p) <==> (caps.contains(p) && p != (k, c)),
    decreases caps.len(),
{
    if caps.len() == 0 {
    } else {
        lemma_remove_cap_spec(caps.drop_first(), k, c, p);
        assert(caps.drop_first().contains(p) <==> (exists|i: int|
            1 <= i < caps.len() && caps[i] == p)) by {
            if caps.drop_first().contains(p) {
                let i = choose|i: int|
                    0 <= i < caps.drop_first().len() && caps.drop_first()[i] == p;
                assert(caps[i + 1] == p);
            }
            if exists|i: int| 1 <= i < caps.len() && caps[i] == p {
                let i = choose|i: int| 1 <= i < caps.len() && caps[i] == p;
                assert(caps.drop_first()[i - 1] == p);
            }
        }
        if caps[0] == (k, c) {
            assert(remove_cap(caps, k, c) == remove_cap(caps.drop_first(), k, c));
            if caps.contains(p) && p != (k, c) {
                let i = choose|i: int| 0 <= i < caps.len() && caps[i] == p;
                assert(i != 0);
            }
        } else {
            let rest = remove_cap(caps.drop_first(), k, c);
            assert(remove_cap(caps, k, c) == seq![caps[0]] + rest);
            if remove_cap(caps, k, c).contains(p) {
                let i = choose|i: int|
                    0 <= i < (seq![caps[0]] + rest).len() && (seq![caps[0]] + rest)[i] == p;
                if i == 0 {
                    assert(caps.contains(p)) by {
                        assert(caps[0] == p);
                    }
                } else {
                    assert(rest[i - 1] == p);
                    assert(rest.contains(p));
                }
            }
            if caps.contains(p) && p != (k, c) {
                let i = choose|i: int| 0 <= i < caps.len() && caps[i] == p;
                if i == 0 {
                    assert((seq![caps[0]] + rest)[0] == p);
                    assert(remove_cap(caps, k, c).contains(p));
                } else {
                    assert(caps.drop_first()[i - 1] == p);
                    assert(rest.contains(p));
                    let j = choose|j: int| 0 <= j < rest.len() && rest[j] == p;
                    assert((seq![caps[0]] + rest)[j + 1] == p);
                }
            }
        }
    }
}

/// A denied capability is no longer held afterwards.
pub proof fn lemma_deny_then_not_held(
    caps: Seq<(u32, Seq<char>)>,
    k: u32,
    c: Seq<char>,
    caps2: Seq<(u32, Seq<char>)>,
)
    requires
        deny_one(caps, k, c) == Ok::<Seq<(u32, Seq<char>)>, AclError>(caps2),
    ensures
        !cap_held(caps2, k, c),
{
    lemma_remove_cap_spec(caps, k, c, (k, c));
}

/// If one key holds the root capability, granting it to a different key
/// fails with MultipleRoots.
pub proof fn lemma_second_root(caps: Seq<(u32, Seq<char>)>, holder: u32, k: u32)
    requires
        cap_held(caps, holder, root_cap()),
        holder != k,
        !cap_held(caps, k, root_cap()),
    ensures
        grant_one(caps, k, root_cap()) == Err::<Seq<(u32, Seq<char>)>, AclError>(
            AclError::MultipleRoots,
        ),
{
    let i = choose|i: int| 0 <= i < caps.len() && caps[i] == (holder, root_cap());
    assert((#[trigger] caps[i]).1 == root_cap() && caps[i].0 != k);
}

} // verus!
