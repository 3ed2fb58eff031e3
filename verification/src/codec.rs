//! Deterministic binary codec for records and envelopes, and the textual
//! transport wrapper.
//!
//! Every field is either a 4-byte little-endian integer or a length-prefixed
//! byte run, so independent implementations agree byte for byte. The spec
//! functions `enc_*` and `dec_*` are the meaning of the format; the executable
//! encoders and decoders are proved against them, and
//! [`lemma_decode_record_round_trip`] / [`lemma_decode_envelope_round_trip`]
//! state that decoding inverts encoding.

use vstd::prelude::*;
use vstd::bytes::*;
use vstd::utf8::*;
use crate::log::{AclPermission, AclRecord, AclRecordType, SignedRecord};
use crate::log::{EnvelopeView, PermissionView, RecordView};

verus! {

// ---------------------------------------------------------------------------
// Size bounds: every length stored in the format must fit in a u32.
// ---------------------------------------------------------------------------
/// Whether a permission statement's lengths fit the wire format.
pub open spec fn perm_bounded(p: PermissionView) -> bool {
    &&& encode_utf8(p.cap).len() <= u32::MAX
    &&& p.key_ids.len() <= u32::MAX
}

/// Whether a record's lengths fit the wire format.
pub open spec fn record_bounded(r: RecordView) -> bool {
    &&& r.last.len() <= u32::MAX
    &&& r.keys.len() <= u32::MAX
    &&& (forall|i: int| 0 <= i < r.keys.len() ==> (#[trigger] r.keys[i]).len() <= u32::MAX)
    &&& r.permissions.len() <= u32::MAX
    &&& (forall|i: int|
        0 <= i < r.permissions.len() ==> perm_bounded(#[trigger] r.permissions[i]))
}

/// Whether an envelope's lengths fit the wire format.
pub open spec fn envelope_bounded(e: EnvelopeView) -> bool {
    &&& e.signature.len() <= u32::MAX
    &&& e.record.len() <= u32::MAX
}

// ---------------------------------------------------------------------------
// Encoding, as spec functions.
// ---------------------------------------------------------------------------
/// A `u32` as four little-endian bytes.
pub open spec fn enc_u32(x: u32) -> Seq<u8> {
    spec_u32_to_le_bytes(x)
}

/// A byte run, prefixed with its length.
pub open spec fn enc_bytes(b: Seq<u8>) -> Seq<u8> {
    enc_u32(b.len() as u32) + b
}

/// A string, as its length-prefixed UTF-8 bytes.
pub open spec fn enc_str(s: Seq<char>) -> Seq<u8> {
    enc_bytes(encode_utf8(s))
}

/// A list of `u32`, each as four bytes, without a count (the count is stored
/// by the container).
pub open spec fn enc_u32_list(xs: Seq<u32>) -> Seq<u8>
    decreases xs.len(),
{
    if xs.len() == 0 {
        Seq::empty()
    } else {
        enc_u32(xs[0]) + enc_u32_list(xs.drop_first())
    }
}

/// A list of byte runs, each length-prefixed, without a count.
pub open spec fn enc_bytes_list(xs: Seq<Seq<u8>>) -> Seq<u8>
    decreases xs.len(),
{
    if xs.len() == 0 {
        Seq::empty()
    } else {
        enc_bytes(xs[0]) + enc_bytes_list(xs.drop_first())
    }
}

/// One permission statement: an action tag, the capability name, and the
/// counted list of target key identifiers.
pub open spec fn enc_perm(p: PermissionView) -> Seq<u8> {
    seq![(if p.grant { 1u8 } else { 0u8 })] + enc_str(p.cap) + enc_u32(p.key_ids.len() as u32)
        + enc_u32_list(p.key_ids)
}

/// A list of permission statements, without a count.
pub open spec fn enc_perm_list(ps: Seq<PermissionView>) -> Seq<u8>
    decreases ps.len(),
{
    if ps.len() == 0 {
        Seq::empty()
    } else {
        enc_perm(ps[0]) + enc_perm_list(ps.drop_first())
    }
}

/// An unsigned record: predecessor bytes, counted key list, counted
/// permission list.
pub open spec fn enc_record(r: RecordView) -> Seq<u8> {
    enc_bytes(r.last) + enc_u32(r.keys.len() as u32) + enc_bytes_list(r.keys) + enc_u32(
        r.permissions.len() as u32,
    ) + enc_perm_list(r.permissions)
}

/// A signed envelope: signer, signature bytes, record bytes.
pub open spec fn enc_envelope(e: EnvelopeView) -> Seq<u8> {
    enc_u32(e.signer) + enc_bytes(e.signature) + enc_bytes(e.record)
}

// ---------------------------------------------------------------------------
// Decoding, as spec functions. Each takes the full input and a cursor and
// yields the decoded value with the cursor after it, or nothing.
// ---------------------------------------------------------------------------
/// Reads four little-endian bytes.
pub open spec fn dec_u32(b: Seq<u8>, i: int) -> Option<(u32, int)> {
    if 0 <= i && i + 4 <= b.len() {
        Some((spec_u32_from_le_bytes(b.subrange(i, i + 4)), i + 4))
    } else {
        None
    }
}

/// Reads a length-prefixed byte run.
pub open spec fn dec_bytes(b: Seq<u8>, i: int) -> Option<(Seq<u8>, int)> {
    match dec_u32(b, i) {
        Some((n, j)) => if j + n <= b.len() {
            Some((b.subrange(j, j + n), j + n))
        } else {
            None
        },
        None => None,
    }
}

/// Reads a length-prefixed byte run that must be valid UTF-8.
pub open spec fn dec_str(b: Seq<u8>, i: int) -> Option<(Seq<char>, int)> {
    match dec_bytes(b, i) {
        Some((bs, j)) => if valid_utf8(bs) {
            Some((decode_utf8(bs), j))
        } else {
            None
        },
        None => None,
    }
}

/// Reads exactly `n` four-byte integers.
pub open spec fn dec_u32_list(b: Seq<u8>, i: int, n: nat) -> Option<(Seq<u32>, int)>
    decreases n,
{
    if n == 0 {
        Some((Seq::empty(), i))
    } else {
        match dec_u32(b, i) {
            Some((x, j)) => match dec_u32_list(b, j, (n - 1) as nat) {
                Some((xs, k)) => Some((seq![x] + xs, k)),
                None => None,
            },
            None => None,
        }
    }
}

/// Reads exactly `n` length-prefixed byte runs.
pub open spec fn dec_bytes_list(b: Seq<u8>, i: int, n: nat) -> Option<(Seq<Seq<u8>>, int)>
    decreases n,
{
    if n == 0 {
        Some((Seq::empty(), i))
    } else {
        match dec_bytes(b, i) {
            Some((x, j)) => match dec_bytes_list(b, j, (n - 1) as nat) {
                Some((xs, k)) => Some((seq![x] + xs, k)),
                None => None,
            },
            None => None,
        }
    }
}

/// Reads one permission statement.
pub open spec fn dec_perm(b: Seq<u8>, i: int) -> Option<(PermissionView, int)> {
    if 0 <= i && i < b.len() && (b[i] == 0u8 || b[i] == 1u8) {
        match dec_str(b, i + 1) {
            Some((c, j)) => match dec_u32(b, j) {
                Some((n, k)) => match dec_u32_list(b, k, n as nat) {
                    Some((ks, m)) => Some(
                        (PermissionView { grant: b[i] == 1u8, cap: c, key_ids: ks }, m),
                    ),
                    None => None,
                },
                None => None,
            },
            None => None,
        }
    } else {
        None
    }
}

/// Reads exactly `n` permission statements.
pub open spec fn dec_perm_list(b: Seq<u8>, i: int, n: nat) -> Option<(Seq<PermissionView>, int)>
    decreases n,
{
    if n == 0 {
        Some((Seq::empty(), i))
    } else {
        match dec_perm(b, i) {
            Some((x, j)) => match dec_perm_list(b, j, (n - 1) as nat) {
                Some((xs, k)) => Some((seq![x] + xs, k)),
                None => None,
            },
            None => None,
        }
    }
}

/// Reads one unsigned record.
pub open spec fn dec_record(b: Seq<u8>, i: int) -> Option<(RecordView, int)> {
    match dec_bytes(b, i) {
        Some((last, j)) => match dec_u32(b, j) {
            Some((nk, k)) => match dec_bytes_list(b, k, nk as nat) {
                Some((keys, m)) => match dec_u32(b, m) {
                    Some((np, q)) => match dec_perm_list(b, q, np as nat) {
                        Some((perms, e)) => Some(
                            (RecordView { last, keys, permissions: perms }, e),
                        ),
                        None => None,
                    },
                    None => None,
                },
                None => None,
            },
            None => None,
        },
        None => None,
    }
}

/// Reads one signed envelope.
pub open spec fn dec_envelope(b: Seq<u8>, i: int) -> Option<(EnvelopeView, int)> {
    match dec_u32(b, i) {
        Some((signer, j)) => match dec_bytes(b, j) {
            Some((sig, k)) => match dec_bytes(b, k) {
                Some((rec, m)) => Some((EnvelopeView { signer, signature: sig, record: rec }, m)),
                None => None,
            },
            None => None,
        },
        None => None,
    }
}

/// The meaning of a byte string as an unsigned record: it must decode, and
/// nothing may follow.
pub open spec fn spec_decode_record(b: Seq<u8>) -> Option<RecordView> {
    match dec_record(b, 0) {
        Some((r, j)) => if j == b.len() {
            Some(r)
        } else {
            None
        },
        None => None,
    }
}

/// The meaning of a byte string as a signed envelope: it must decode, and
/// nothing may follow.
pub open spec fn spec_decode_envelope(b: Seq<u8>) -> Option<EnvelopeView> {
    match dec_envelope(b, 0) {
        Some((e, j)) => if j == b.len() {
            Some(e)
        } else {
            None
        },
        None => None,
    }
}

// ---------------------------------------------------------------------------
// Decoding inverts encoding.
// ---------------------------------------------------------------------------
/// Splitting a known concatenation inside a larger byte string.
proof fn lemma_split_at(b: Seq<u8>, i: int, s1: Seq<u8>, s2: Seq<u8>)
    requires
        0 <= i,
        i + s1.len() + s2.len() <= b.len(),
        b.subrange(i, i + s1.len() + s2.len()) == s1 + s2,
    ensures
        b.subrange(i, i + s1.len()) == s1,
        b.subrange(i + s1.len(), i + s1.len() + s2.len()) == s2,
{
    let whole = b.subrange(i, i + s1.len() + s2.len());
    assert forall|k: int| 0 <= k < s1.len() implies b[i + k] == s1[k] by {
        assert(whole[k] == (s1 + s2)[k]);
    }
    assert(b.subrange(i, i + s1.len()) =~= s1);
    assert forall|k: int| 0 <= k < s2.len() implies b[i + s1.len() + k] == s2[k] by {
        assert(whole[s1.len() + k] == (s1 + s2)[s1.len() + k]);
    }
    assert(b.subrange(i + s1.len(), i + s1.len() + s2.len()) =~= s2);
}

proof fn lemma_dec_u32_at(b: Seq<u8>, i: int, x: u32)
    requires
        0 <= i,
        i + 4 <= b.len(),
        b.subrange(i, i + 4) == enc_u32(x),
    ensures
        dec_u32(b, i) == Some((x, i + 4)),
{
    lemma_auto_spec_u32_to_from_le_bytes();
    assert(spec_u32_to_le_bytes(x).len() == 4);
    assert(spec_u32_from_le_bytes(spec_u32_to_le_bytes(x)) == x);
    assert(b.subrange(i, i + 4) == spec_u32_to_le_bytes(x));
}

proof fn lemma_dec_bytes_at(b: Seq<u8>, i: int, s: Seq<u8>)
    requires
        0 <= i,
        s.len() <= u32::MAX,
        i + enc_bytes(s).len() <= b.len(),
        b.subrange(i, i + enc_bytes(s).len()) == enc_bytes(s),
    ensures
        dec_bytes(b, i) == Some((s, i + enc_bytes(s).len())),
        enc_bytes(s).len() == 4 + s.len(),
{
    lemma_auto_spec_u32_to_from_le_bytes();
    assert(enc_u32(s.len() as u32).len() == 4);
    lemma_split_at(b, i, enc_u32(s.len() as u32), s);
    lemma_dec_u32_at(b, i, s.len() as u32);
}

proof fn lemma_dec_str_at(b: Seq<u8>, i: int, s: Seq<char>)
    requires
        0 <= i,
        encode_utf8(s).len() <= u32::MAX,
        i + enc_str(s).len() <= b.len(),
        b.subrange(i, i + enc_str(s).len()) == enc_str(s),
    ensures
        dec_str(b, i) == Some((s, i + enc_str(s).len())),
        enc_str(s).len() == 4 + encode_utf8(s).len(),
{
    lemma_dec_bytes_at(b, i, encode_utf8(s));
    encode_utf8_valid_utf8(s);
    encode_utf8_decode_utf8(s);
}

proof fn lemma_dec_u32_list_at(b: Seq<u8>, i: int, xs: Seq<u32>)
    requires
        0 <= i,
        i + enc_u32_list(xs).len() <= b.len(),
        b.subrange(i, i + enc_u32_list(xs).len()) == enc_u32_list(xs),
    ensures
        dec_u32_list(b, i, xs.len()) == Some((xs, i + enc_u32_list(xs).len())),
    decreases xs.len(),
{
    lemma_auto_spec_u32_to_from_le_bytes();
    if xs.len() == 0 {
        assert(xs =~= Seq::<u32>::empty());
    } else {
        let head = enc_u32(xs[0]);
        let tail = enc_u32_list(xs.drop_first());
        assert(head.len() == 4);
        lemma_split_at(b, i, head, tail);
        lemma_dec_u32_at(b, i, xs[0]);
        lemma_dec_u32_list_at(b, i + 4, xs.drop_first());
        assert(seq![xs[0]] + xs.drop_first() =~= xs);
    }
}

proof fn lemma_dec_bytes_list_at(b: Seq<u8>, i: int, xs: Seq<Seq<u8>>)
    requires
        0 <= i,
        forall|k: int| 0 <= k < xs.len() ==> (#[trigger] xs[k]).len() <= u32::MAX,
        i + enc_bytes_list(xs).len() <= b.len(),
        b.subrange(i, i + enc_bytes_list(xs).len()) == enc_bytes_list(xs),
    ensures
        dec_bytes_list(b, i, xs.len()) == Some((xs, i + enc_bytes_list(xs).len())),
    decreases xs.len(),
{
    if xs.len() == 0 {
        assert(xs =~= Seq::<Seq<u8>>::empty());
    } else {
        let head = enc_bytes(xs[0]);
        let tail = enc_bytes_list(xs.drop_first());
        lemma_split_at(b, i, head, tail);
        lemma_dec_bytes_at(b, i, xs[0]);
        assert(forall|k: int|
            0 <= k < xs.drop_first().len() ==> (#[trigger] xs.drop_first()[k]).len()
                <= u32::MAX);
        lemma_dec_bytes_list_at(b, i + head.len(), xs.drop_first());
        assert(seq![xs[0]] + xs.drop_first() =~= xs);
    }
}

proof fn lemma_dec_perm_at(b: Seq<u8>, i: int, p: PermissionView)
    requires
        0 <= i,
        perm_bounded(p),
        i + enc_perm(p).len() <= b.len(),
        b.subrange(i, i + enc_perm(p).len()) == enc_perm(p),
    ensures
        dec_perm(b, i) == Some((p, i + enc_perm(p).len())),
{
    lemma_auto_spec_u32_to_from_le_bytes();
    let tag = seq![(if p.grant { 1u8 } else { 0u8 })];
    let s_cap = enc_str(p.cap);
    let s_cnt = enc_u32(p.key_ids.len() as u32);
    let s_ids = enc_u32_list(p.key_ids);
    assert(enc_perm(p) =~= tag + (s_cap + (s_cnt + s_ids)));
    lemma_split_at(b, i, tag, s_cap + (s_cnt + s_ids));
    assert(b[i] == tag[0]) by {
        assert(b.subrange(i, i + 1)[0] == tag[0]);
    }
    let j = i + 1;
    lemma_split_at(b, j, s_cap, s_cnt + s_ids);
    lemma_dec_str_at(b, j, p.cap);
    let k = j + s_cap.len();
    lemma_split_at(b, k, s_cnt, s_ids);
    lemma_dec_u32_at(b, k, p.key_ids.len() as u32);
    let m = k + 4;
    lemma_dec_u32_list_at(b, m, p.key_ids);
}

proof fn lemma_dec_perm_list_at(b: Seq<u8>, i: int, ps: Seq<PermissionView>)
    requires
        0 <= i,
        forall|k: int| 0 <= k < ps.len() ==> perm_bounded(#[trigger] ps[k]),
        i + enc_perm_list(ps).len() <= b.len(),
        b.subrange(i, i + enc_perm_list(ps).len()) == enc_perm_list(ps),
    ensures
        dec_perm_list(b, i, ps.len()) == Some((ps, i + enc_perm_list(ps).len())),
    decreases ps.len(),
{
    if ps.len() == 0 {
        assert(ps =~= Seq::<PermissionView>::empty());
    } else {
        let head = enc_perm(ps[0]);
        let tail = enc_perm_list(ps.drop_first());
        lemma_split_at(b, i, head, tail);
        lemma_dec_perm_at(b, i, ps[0]);
        assert(forall|k: int|
            0 <= k < ps.drop_first().len() ==> perm_bounded(#[trigger] ps.drop_first()[k]));
        lemma_dec_perm_list_at(b, i + head.len(), ps.drop_first());
        assert(seq![ps[0]] + ps.drop_first() =~= ps);
    }
}

proof fn lemma_dec_record_at(b: Seq<u8>, i: int, r: RecordView)
    requires
        0 <= i,
        record_bounded(r),
        i + enc_record(r).len() <= b.len(),
        b.subrange(i, i + enc_record(r).len()) == enc_record(r),
    ensures
        dec_record(b, i) == Some((r, i + enc_record(r).len())),
{
    lemma_auto_spec_u32_to_from_le_bytes();
    let s_last = enc_bytes(r.last);
    let s_nk = enc_u32(r.keys.len() as u32);
    let s_keys = enc_bytes_list(r.keys);
    let s_np = enc_u32(r.permissions.len() as u32);
    let s_perms = enc_perm_list(r.permissions);
    assert(enc_record(r) =~= s_last + (s_nk + (s_keys + (s_np + s_perms))));
    lemma_split_at(b, i, s_last, s_nk + (s_keys + (s_np + s_perms)));
    lemma_dec_bytes_at(b, i, r.last);
    let j = i + s_last.len();
    lemma_split_at(b, j, s_nk, s_keys + (s_np + s_perms));
    lemma_dec_u32_at(b, j, r.keys.len() as u32);
    let k = j + 4;
    lemma_split_at(b, k, s_keys, s_np + s_perms);
    lemma_dec_bytes_list_at(b, k, r.keys);
    let m = k + s_keys.len();
    lemma_split_at(b, m, s_np, s_perms);
    lemma_dec_u32_at(b, m, r.permissions.len() as u32);
    let q = m + 4;
    lemma_dec_perm_list_at(b, q, r.permissions);
}

/// Decoding inverts encoding, for unsigned records.
pub proof fn lemma_decode_record_round_trip(r: RecordView)
    requires
        record_bounded(r),
    ensures
        spec_decode_record(enc_record(r)) == Some(r),
{
    let b = enc_record(r);
    assert(b.subrange(0, b.len() as int) =~= b);
    lemma_dec_record_at(b, 0, r);
}

/// Decoding inverts encoding, for signed envelopes.
pub proof fn lemma_decode_envelope_round_trip(e: EnvelopeView)
    requires
        envelope_bounded(e),
    ensures
        spec_decode_envelope(enc_envelope(e)) == Some(e),
{
    lemma_auto_spec_u32_to_from_le_bytes();
    let b = enc_envelope(e);
    assert(b.subrange(0, b.len() as int) =~= b);
    let s_signer = enc_u32(e.signer);
    let s_sig = enc_bytes(e.signature);
    let s_rec = enc_bytes(e.record);
    assert(b.subrange(0, b.len() as int) =~= s_signer + (s_sig + s_rec));
    lemma_split_at(b, 0, s_signer, s_sig + s_rec);
    lemma_dec_u32_at(b, 0, e.signer);
    lemma_split_at(b, 4, s_sig, s_rec);
    lemma_dec_bytes_at(b, 4, e.signature);
    lemma_dec_bytes_at(b, 4 + s_sig.len() as int, e.record);
}

// ---------------------------------------------------------------------------
// Snoc forms of the list encoders, for the encoding loops.
// ---------------------------------------------------------------------------
proof fn lemma_enc_u32_list_snoc(xs: Seq<u32>, x: u32)
    ensures
        enc_u32_list(xs.push(x)) == enc_u32_list(xs) + enc_u32(x),
    decreases xs.len(),
{
    if xs.len() == 0 {
        assert(xs.push(x).drop_first() =~= Seq::<u32>::empty());
        assert(xs.push(x)[0] == x);
        assert(enc_u32_list(xs.push(x)) == enc_u32(x) + enc_u32_list(Seq::<u32>::empty()));
        assert(enc_u32(x) + Seq::<u8>::empty() =~= Seq::<u8>::empty() + enc_u32(x));
    } else {
        assert(xs.push(x).drop_first() =~= xs.drop_first().push(x));
        assert(xs.push(x)[0] == xs[0]);
        lemma_enc_u32_list_snoc(xs.drop_first(), x);
        assert(enc_u32_list(xs.push(x)) == enc_u32(xs[0]) + (enc_u32_list(xs.drop_first())
            + enc_u32(x)));
        assert(enc_u32(xs[0]) + (enc_u32_list(xs.drop_first()) + enc_u32(x)) =~= (enc_u32(xs[0])
            + enc_u32_list(xs.drop_first())) + enc_u32(x));
    }
}

proof fn lemma_enc_bytes_list_snoc(xs: Seq<Seq<u8>>, x: Seq<u8>)
    ensures
        enc_bytes_list(xs.push(x)) == enc_bytes_list(xs) + enc_bytes(x),
    decreases xs.len(),
{
    if xs.len() == 0 {
        assert(xs.push(x).drop_first() =~= Seq::<Seq<u8>>::empty());
        assert(xs.push(x)[0] == x);
        assert(enc_bytes_list(xs.push(x)) == enc_bytes(x) + enc_bytes_list(
            Seq::<Seq<u8>>::empty(),
        ));
        assert(enc_bytes(x) + Seq::<u8>::empty() =~= Seq::<u8>::empty() + enc_bytes(x));
    } else {
        assert(xs.push(x).drop_first() =~= xs.drop_first().push(x));
        assert(xs.push(x)[0] == xs[0]);
        lemma_enc_bytes_list_snoc(xs.drop_first(), x);
        assert(enc_bytes_list(xs.push(x)) == enc_bytes(xs[0]) + (enc_bytes_list(xs.drop_first())
            + enc_bytes(x)));
        assert(enc_bytes(xs[0]) + (enc_bytes_list(xs.drop_first()) + enc_bytes(x)) =~= (enc_bytes(
            xs[0],
        ) + enc_bytes_list(xs.drop_first())) + enc_bytes(x));
    }
}

proof fn lemma_enc_perm_list_snoc(ps: Seq<PermissionView>, p: PermissionView)
    ensures
        enc_perm_list(ps.push(p)) == enc_perm_list(ps) + enc_perm(p),
    decreases ps.len(),
{
    if ps.len() == 0 {
        assert(ps.push(p).drop_first() =~= Seq::<PermissionView>::empty());
        assert(ps.push(p)[0] == p);
        assert(enc_perm_list(ps.push(p)) == enc_perm(p) + enc_perm_list(
            Seq::<PermissionView>::empty(),
        ));
        assert(enc_perm(p) + Seq::<u8>::empty() =~= Seq::<u8>::empty() + enc_perm(p));
    } else {
        assert(ps.push(p).drop_first() =~= ps.drop_first().push(p));
        assert(ps.push(p)[0] == ps[0]);
        lemma_enc_perm_list_snoc(ps.drop_first(), p);
        assert(enc_perm_list(ps.push(p)) == enc_perm(ps[0]) + (enc_perm_list(ps.drop_first())
            + enc_perm(p)));
        assert(enc_perm(ps[0]) + (enc_perm_list(ps.drop_first()) + enc_perm(p)) =~= (enc_perm(
            ps[0],
        ) + enc_perm_list(ps.drop_first())) + enc_perm(p));
    }
}

// ---------------------------------------------------------------------------
// Executable encoders.
// ---------------------------------------------------------------------------
fn push_all(out: &mut Vec<u8>, src: &[u8])
    ensures
        final(out)@ == old(out)@ + src@,
{
    let mut i: usize = 0;
    while i < src.len()
        invariant
            i <= src@.len(),
            out@ =~= old(out)@ + src@.take(i as int),
        decreases src@.len() - i,
    {
        out.push(*vstd::slice::slice_index_get(src, i));
        proof {
            assert(src@.take(i + 1 as int) =~= src@.take(i as int).push(src@[i as int]));
        }
        i = i + 1;
    }
    proof {
        assert(src@.take(src@.len() as int) =~= src@);
        assert(out@ =~= old(out)@ + src@);
    }
}

fn encode_u32_into(out: &mut Vec<u8>, x: u32)
    ensures
        final(out)@ == old(out)@ + enc_u32(x),
{
    let b = u32_to_le_bytes(x);
    push_all(out, b.as_slice());
}

fn encode_bytes_into(out: &mut Vec<u8>, b: &[u8])
    requires
        b@.len() <= u32::MAX,
    ensures
        final(out)@ == old(out)@ + enc_bytes(b@),
{
    encode_u32_into(out, b.len() as u32);
    push_all(out, b);
    proof {
        assert(out@ =~= old(out)@ + enc_bytes(b@));
    }
}

fn encode_str_into(out: &mut Vec<u8>, s: &String)
    requires
        encode_utf8(s@).len() <= u32::MAX,
    ensures
        final(out)@ == old(out)@ + enc_str(s@),
{
    encode_bytes_into(out, s.as_str().as_bytes());
}

fn encode_perm_into(out: &mut Vec<u8>, p: &AclPermission)
    requires
        perm_bounded(p@),
    ensures
        final(out)@ == old(out)@ + enc_perm(p@),
{
    match p.action {
        AclRecordType::Grant => out.push(1u8),
        AclRecordType::Deny => out.push(0u8),
    }
    proof {
        assert(out@ =~= old(out)@ + seq![(if p@.grant { 1u8 } else { 0u8 })]);
    }
    encode_str_into(out, &p.cap);
    encode_u32_into(out, p.key_id.len() as u32);
    let ghost base = out@;
    let mut i: usize = 0;
    while i < p.key_id.len()
        invariant
            i <= p.key_id.len(),
            out@ =~= base + enc_u32_list(p@.key_ids.take(i as int)),
        decreases p.key_id.len() - i,
    {
        encode_u32_into(out, p.key_id[i]);
        proof {
            assert(p@.key_ids.take(i + 1 as int) =~= p@.key_ids.take(i as int).push(
                p@.key_ids[i as int],
            ));
            lemma_enc_u32_list_snoc(p@.key_ids.take(i as int), p@.key_ids[i as int]);
        }
        i = i + 1;
    }
    proof {
        assert(p@.key_ids.take(p@.key_ids.len() as int) =~= p@.key_ids);
        assert(out@ =~= old(out)@ + enc_perm(p@));
    }
}

impl AclRecord {
    /// The record's deterministic binary form.
    pub fn encode_to_vec(&self) -> (r: Vec<u8>)
        requires
            record_bounded(self@),
        ensures
            r@ == enc_record(self@),
    {
        let mut out: Vec<u8> = Vec::new();
        encode_bytes_into(&mut out, self.last.as_slice());
        encode_u32_into(&mut out, self.keys.len() as u32);
        let ghost base_keys = out@;
        let mut i: usize = 0;
        while i < self.keys.len()
            invariant
                i <= self.keys.len(),
                record_bounded(self@),
                self.keys.len() == self@.keys.len(),
                out@ =~= base_keys + enc_bytes_list(self@.keys.take(i as int)),
            decreases self.keys.len() - i,
        {
            proof {
                assert(self@.keys[i as int] == self.keys@[i as int].deep_view());
                assert(self.keys@[i as int].deep_view() =~= self.keys@[i as int]@);
            }
            encode_bytes_into(&mut out, self.keys[i].as_slice());
            proof {
                assert(self@.keys.take(i + 1 as int) =~= self@.keys.take(i as int).push(
                    self@.keys[i as int],
                ));
                lemma_enc_bytes_list_snoc(self@.keys.take(i as int), self@.keys[i as int]);
            }
            i = i + 1;
        }
        proof {
            assert(self@.keys.take(self@.keys.len() as int) =~= self@.keys);
        }
        encode_u32_into(&mut out, self.permissions.len() as u32);
        let ghost base_perms = out@;
        let mut j: usize = 0;
        while j < self.permissions.len()
            invariant
                j <= self.permissions.len(),
                record_bounded(self@),
                self.permissions.len() == self@.permissions.len(),
                out@ =~= base_perms + enc_perm_list(self@.permissions.take(j as int)),
            decreases self.permissions.len() - j,
        {
            proof {
                assert(self@.permissions[j as int] == self.permissions@[j as int].deep_view());
            }
            encode_perm_into(&mut out, &self.permissions[j]);
            proof {
                assert(self@.permissions.take(j + 1 as int) =~= self@.permissions.take(
                    j as int,
                ).push(self@.permissions[j as int]));
                lemma_enc_perm_list_snoc(
                    self@.permissions.take(j as int),
                    self@.permissions[j as int],
                );
            }
            j = j + 1;
        }
        proof {
            assert(self@.permissions.take(self@.permissions.len() as int) =~= self@.permissions);
            assert(out@ =~= enc_record(self@));
        }
        out
    }
}

impl SignedRecord {
    /// The envelope's deterministic binary form.
    pub fn encode_to_vec(&self) -> (r: Vec<u8>)
        requires
            envelope_bounded(self@),
        ensures
            r@ == enc_envelope(self@),
    {
        let mut out: Vec<u8> = Vec::new();
        encode_u32_into(&mut out, self.signer);
        encode_bytes_into(&mut out, self.signature.as_slice());
        encode_bytes_into(&mut out, self.record.as_slice());
        proof {
            assert(out@ =~= enc_envelope(self@));
        }
        out
    }
}


// ---------------------------------------------------------------------------
// Executable decoders, each proved to compute the matching `dec_*`.
// ---------------------------------------------------------------------------
/// A parsed prefix joined in front of the rest of a parse.
pub open spec fn join_parsed<T>(pre: Seq<T>, o: Option<(Seq<T>, int)>) -> Option<(Seq<T>, int)> {
    match o {
        Some(p) => Some((pre + p.0, p.1)),
        None => None,
    }
}

fn read_u32(b: &[u8], i: usize) -> (r: Option<(u32, usize)>)
    ensures
        match r {
            Some(p) => dec_u32(b@, i as int) == Some((p.0, p.1 as int)) && p.1 <= b@.len(),
            None => dec_u32(b@, i as int) is None,
        },
{
    if b.len() >= 4 && i <= b.len() - 4 {
        let s = vstd::slice::slice_subrange(b, i, i + 4);
        Some((u32_from_le_bytes(s), i + 4))
    } else {
        None
    }
}

fn read_bytes(b: &[u8], i: usize) -> (r: Option<(Vec<u8>, usize)>)
    ensures
        match r {
            Some(p) => dec_bytes(b@, i as int) == Some((p.0@, p.1 as int)) && p.1 <= b@.len(),
            None => dec_bytes(b@, i as int) is None,
        },
{
    match read_u32(b, i) {
        None => None,
        Some((n, j)) => {
            let nu = n as usize;
            if nu <= b.len() - j {
                let s = vstd::slice::slice_subrange(b, j, j + nu);
                Some((vstd::slice::slice_to_vec(s), j + nu))
            } else {
                None
            }
        },
    }
}

/// Relies on std's String::from_utf8: it succeeds exactly on valid UTF-8
/// and decodes it; vstd's `valid_utf8` and `decode_utf8` model the same
/// Unicode scalar coding.
#[verifier::external_body]
fn string_from_utf8(v: Vec<u8>) -> (r: Option<String>)
    ensures
        match r {
            Some(s) => valid_utf8(v@) && s@ == decode_utf8(v@),
            None => !valid_utf8(v@),
        },
{
    match String::from_utf8(v) {
        Ok(s) => Some(s),
        Err(_) => None,
    }
}

fn read_str(b: &[u8], i: usize) -> (r: Option<(String, usize)>)
    ensures
        match r {
            Some(p) => dec_str(b@, i as int) == Some((p.0@, p.1 as int)) && p.1 <= b@.len(),
            None => dec_str(b@, i as int) is None,
        },
{
    match read_bytes(b, i) {
        None => None,
        Some((v, j)) => {
            match string_from_utf8(v) {
                Some(s) => Some((s, j)),
                None => None,
            }
        },
    }
}

fn read_u32_list(b: &[u8], i: usize, n: u32) -> (r: Option<(Vec<u32>, usize)>)
    ensures
        match r {
            Some(p) => dec_u32_list(b@, i as int, n as nat) == Some((p.0@, p.1 as int)),
            None => dec_u32_list(b@, i as int, n as nat) is None,
        },
{
    let mut acc: Vec<u32> = Vec::new();
    let mut pos: usize = i;
    let mut k: u32 = 0;
    while k < n
        invariant
            k <= n,
            dec_u32_list(b@, i as int, n as nat) == join_parsed(
                acc@,
                dec_u32_list(b@, pos as int, (n - k) as nat),
            ),
        decreases n - k,
    {
        match read_u32(b, pos) {
            None => {
                return None;
            },
            Some((x, j)) => {
                proof {
                    let rest = dec_u32_list(b@, j as int, (n - k - 1) as nat);
                    if rest is Some {
                        let pr = rest->0;
                        assert(acc@ + (seq![x] + pr.0) =~= acc@.push(x) + pr.0);
                    }
                }
                acc.push(x);
                pos = j;
                k = k + 1;
            },
        }
    }
    proof {
        assert(acc@ + Seq::<u32>::empty() =~= acc@);
    }
    Some((acc, pos))
}

fn read_bytes_list(b: &[u8], i: usize, n: u32) -> (r: Option<(Vec<Vec<u8>>, usize)>)
    ensures
        match r {
            Some(p) => dec_bytes_list(b@, i as int, n as nat) == Some(
                (p.0.deep_view(), p.1 as int),
            ),
            None => dec_bytes_list(b@, i as int, n as nat) is None,
        },
{
    let mut acc: Vec<Vec<u8>> = Vec::new();
    let mut pos: usize = i;
    let mut k: u32 = 0;
    while k < n
        invariant
            k <= n,
            dec_bytes_list(b@, i as int, n as nat) == join_parsed(
                acc.deep_view(),
                dec_bytes_list(b@, pos as int, (n - k) as nat),
            ),
        decreases n - k,
    {
        match read_bytes(b, pos) {
            None => {
                return None;
            },
            Some((x, j)) => {
                let ghost xv = x@;
                let ghost pre = acc.deep_view();
                proof {
                    assert(x.deep_view() =~= xv);
                }
                acc.push(x);
                proof {
                    assert(acc.deep_view() =~= pre.push(xv));
                    let rest = dec_bytes_list(b@, j as int, (n - k - 1) as nat);
                    if rest is Some {
                        let pr = rest->0;
                        assert(pre + (seq![xv] + pr.0) =~= pre.push(xv) + pr.0);
                    }
                }
                pos = j;
                k = k + 1;
            },
        }
    }
    proof {
        assert(acc.deep_view() + Seq::<Seq<u8>>::empty() =~= acc.deep_view());
    }
    Some((acc, pos))
}

fn read_perm(b: &[u8], i: usize) -> (r: Option<(AclPermission, usize)>)
    ensures
        match r {
            Some(p) => dec_perm(b@, i as int) == Some((p.0@, p.1 as int)),
            None => dec_perm(b@, i as int) is None,
        },
{
    if i >= b.len() {
        return None;
    }
    let tag = *vstd::slice::slice_index_get(b, i);
    if tag != 0 && tag != 1 {
        return None;
    }
    match read_str(b, i + 1) {
        None => None,
        Some((cap, j)) => match read_u32(b, j) {
            None => None,
            Some((n, k)) => match read_u32_list(b, k, n) {
                None => None,
                Some((ids, m)) => {
                    let action = if tag == 1 {
                        AclRecordType::Grant
                    } else {
                        AclRecordType::Deny
                    };
                    let p = AclPermission { action, cap, key_id: ids };
                    Some((p, m))
                },
            },
        },
    }
}

fn read_perm_list(b: &[u8], i: usize, n: u32) -> (r: Option<(Vec<AclPermission>, usize)>)
    ensures
        match r {
            Some(p) => dec_perm_list(b@, i as int, n as nat) == Some(
                (p.0.deep_view(), p.1 as int),
            ),
            None => dec_perm_list(b@, i as int, n as nat) is None,
        },
{
    let mut acc: Vec<AclPermission> = Vec::new();
    let mut pos: usize = i;
    let mut k: u32 = 0;
    while k < n
        invariant
            k <= n,
            dec_perm_list(b@, i as int, n as nat) == join_parsed(
                acc.deep_view(),
                dec_perm_list(b@, pos as int, (n - k) as nat),
            ),
        decreases n - k,
    {
        match read_perm(b, pos) {
            None => {
                return None;
            },
            Some((x, j)) => {
                let ghost xv = x@;
                let ghost pre = acc.deep_view();
                acc.push(x);
                proof {
                    assert(acc.deep_view() =~= pre.push(xv));
                    let rest = dec_perm_list(b@, j as int, (n - k - 1) as nat);
                    if rest is Some {
                        let pr = rest->0;
                        assert(pre + (seq![xv] + pr.0) =~= pre.push(xv) + pr.0);
                    }
                }
                pos = j;
                k = k + 1;
            },
        }
    }
    proof {
        assert(acc.deep_view() + Seq::<PermissionView>::empty() =~= acc.deep_view());
    }
    Some((acc, pos))
}

fn read_record(b: &[u8], i: usize) -> (r: Option<(AclRecord, usize)>)
    ensures
        match r {
            Some(p) => dec_record(b@, i as int) == Some((p.0@, p.1 as int)),
            None => dec_record(b@, i as int) is None,
        },
{
    match read_bytes(b, i) {
        None => None,
        Some((last, j)) => match read_u32(b, j) {
            None => None,
            Some((nk, k)) => match read_bytes_list(b, k, nk) {
                None => None,
                Some((keys, m)) => match read_u32(b, m) {
                    None => None,
                    Some((np, q)) => match read_perm_list(b, q, np) {
                        None => None,
                        Some((perms, e)) => {
                            let rec = AclRecord { last, keys, permissions: perms };
                            Some((rec, e))
                        },
                    },
                },
            },
        },
    }
}

fn read_envelope(b: &[u8], i: usize) -> (r: Option<(SignedRecord, usize)>)
    ensures
        match r {
            Some(p) => dec_envelope(b@, i as int) == Some((p.0@, p.1 as int)),
            None => dec_envelope(b@, i as int) is None,
        },
{
    match read_u32(b, i) {
        None => None,
        Some((signer, j)) => match read_bytes(b, j) {
            None => None,
            Some((sig, k)) => match read_bytes(b, k) {
                None => None,
                Some((rec, m)) => Some((SignedRecord { signer, signature: sig, record: rec }, m)),
            },
        },
    }
}

impl AclRecord {
    /// Reads a record back from its deterministic binary form; the whole
    /// input must be consumed.
    pub fn decode(buf: &[u8]) -> (r: Option<AclRecord>)
        ensures
            match r {
                Some(rec) => spec_decode_record(buf@) == Some(rec@),
                None => spec_decode_record(buf@) is None,
            },
    {
        match read_record(buf, 0) {
            Some((rec, j)) => if j == buf.len() {
                Some(rec)
            } else {
                None
            },
            None => None,
        }
    }
}

impl SignedRecord {
    /// Reads an envelope back from its deterministic binary form; the whole
    /// input must be consumed.
    pub fn decode(buf: &[u8]) -> (r: Option<SignedRecord>)
        ensures
            match r {
                Some(env) => spec_decode_envelope(buf@) == Some(env@),
                None => spec_decode_envelope(buf@) is None,
            },
    {
        match read_envelope(buf, 0) {
            Some((env, j)) => if j == buf.len() {
                Some(env)
            } else {
                None
            },
            None => None,
        }
    }
}

// ---------------------------------------------------------------------------
// Textual transport.
// ---------------------------------------------------------------------------
/// The text that the transport encoding produces for the given bytes. Fixed
/// by the base64 alphabet; the library learns it through the two wrappers
/// below.
pub uninterp spec fn b64_of(b: Seq<u8>) -> Seq<char>;

/// Relies on base64::encode (standard alphabet, padded): the output is a
/// function of the input bytes alone.
#[verifier::external_body]
pub(crate) fn b64_encode(b: &[u8]) -> (r: String)
    ensures
        r@ == b64_of(b@),
{
    base64::encode(b)
}

/// Relies on base64::decode (standard alphabet): it inverts base64::encode,
/// so on any text that base64::encode produces it returns that call's input,
/// and it fails on no such text. Of other accepted spellings nothing is
/// claimed.
#[verifier::external_body]
pub(crate) fn b64_decode(s: &str) -> (r: Option<Vec<u8>>)
    ensures
        match r {
            Some(v) => forall|bb: Seq<u8>| s@ == b64_of(bb) ==> bb == v@,
            None => forall|bb: Seq<u8>| s@ != b64_of(bb),
        },
{
    match base64::decode(s) {
        Ok(v) => Some(v),
        Err(_) => None,
    }
}

} // verus!
