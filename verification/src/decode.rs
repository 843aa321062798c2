//! Decoders of the canonical encoding.
//!
//! Each decoder accepts exactly the canonical byte form: when it returns a
//! value, the canonical encoding of that value is the input itself.  Inputs
//! with unknown fields, out-of-order fields, non-minimal varints, or fields
//! carrying their default value are rejected.

use vstd::prelude::*;
use crate::payload::{
    Alert, Arbitrator, DecodeError, Direction, Filter, MailboxStoragePayload, Mediator, NodeAddress,
    OfferPayload, PubKeyRing, RefundAgent, StoragePayload, TempProposalPayload, TradeStatistics,
    direction_num,
};
use crate::codec::{
    lemma_rep_len_push, lemma_rep_map_entry_push, lemma_rep_node_address_push,
    alert_bytes, arbitrator_bytes, filter_bytes, mailbox_bytes, map_entry_bytes, mediator_bytes,
    node_address_bytes, offer_payload_bytes, opt_node_address, opt_pub_key_ring,
    pub_key_ring_bytes, refund_agent_bytes, rep_len, rep_map_entry, rep_node_address,
    storage_payload_bytes, temp_proposal_bytes, trade_statistics_bytes,
    alert_chunk, alert_fields_from, lemma_alert_field_absent, lemma_alert_field_present,
    lemma_alert_fields_cat, lemma_cat_assoc, offer_chunk, offer_fields_from,
    lemma_offer_field_absent, lemma_offer_field_present, lemma_offer_fields_cat,
    lemma_offer_fields_shape, ts_chunk,
    ts_fields_from, lemma_ts_field_absent, lemma_ts_field_present, lemma_ts_fields_cat,
};
use crate::wire::{
    field_fix64, field_len, field_uint, le64_bytes, lemma_subrange_all, lemma_subrange_empty,
    lemma_subrange_split, len_delim, opt_bool, opt_fix64, opt_len, opt_uint, read_le64,
    read_len_prefixed, read_varint, varint_bytes,
};

verus! {

/// Reads a varint field with number `num` at `i`, if one starts there.
/// `Ok(None)` leaves the position to the caller; `Err` marks a malformed or
/// non-canonical field.  A canonical field of this number starting at `i`
/// is always parsed, and a field of another number is always left.
fn take_uint_field(data: &[u8], i: usize, num: u64) -> (r: Result<Option<(u64, usize)>, ()>)
    requires
        i <= data@.len(),
        1 <= num <= 1000,
    ensures
        match r {
            Ok(Some(p)) => i < p.1 <= data@.len() && data@.subrange(i as int, p.1 as int)
                == field_uint(num, p.0) && p.0 != 0,
            _ => true,
        },
        data@.subrange(i as int, data@.len() as int).len() == 0 ==> (r matches Ok(o) && o
            is None),
        forall|t: u64, tail: Seq<u8>|
            data@.subrange(i as int, data@.len() as int) == #[trigger] (varint_bytes(t) + tail)
                && t != num * 8 ==> (r matches Ok(o) && o is None),
        forall|v: u64, tail: Seq<u8>|
            data@.subrange(i as int, data@.len() as int) == #[trigger] (field_uint(num, v) + tail)
                && v != 0 ==> (r matches Ok(o) && o matches Some(p) && p.0 == v && p.1 == i
                + field_uint(num, v).len()),
{
    let ghost suffix = data@.subrange(i as int, data@.len() as int);
    proof {
        assert forall|v: u64, tail: Seq<u8>|
            suffix == #[trigger] (field_uint(num, v) + tail) implies suffix == (varint_bytes(
            (num * 8) as u64,
        ) + (varint_bytes(v) + tail)) by {
            assert(field_uint(num, v) + tail =~= varint_bytes((num * 8) as u64) + (varint_bytes(v)
                + tail));
        }
    }
    match read_varint(data, i) {
        None => Ok(None),
        Some((t, k)) => {
            if t != num * 8 {
                Ok(None)
            } else {
                proof {
                    assert forall|v: u64, tail: Seq<u8>|
                        suffix == #[trigger] (field_uint(num, v) + tail) implies data@.subrange(
                        k as int,
                        data@.len() as int,
                    ) == (varint_bytes(v) + tail) by {
                        assert(suffix == varint_bytes((num * 8) as u64) + (varint_bytes(v) + tail));
                        assert(data@.subrange(k as int, data@.len() as int) =~= suffix.skip(k - i));
                        assert(suffix.skip(k - i) =~= varint_bytes(v) + tail);
                    }
                }
                match read_varint(data, k) {
                    None => Err(()),
                    Some((v, j)) => {
                        if v == 0 {
                            Err(())
                        } else {
                            proof {
                                lemma_subrange_split(data@, i as int, k as int, j as int);
                            }
                            Ok(Some((v, j)))
                        }
                    },
                }
            }
        },
    }
}

/// Reads a length-delimited field with number `num` at `i`, if one starts
/// there.  The body may be empty; string callers reject that themselves.
/// A field of this number starting at `i` is always parsed, and a field
/// of another number is always left.
fn take_len_field(data: &[u8], i: usize, num: u64) -> (r: Result<Option<(Vec<u8>, usize)>, ()>)
    requires
        i <= data@.len(),
        1 <= num <= 1000,
    ensures
        match r {
            Ok(Some((b, j))) => i < j <= data@.len() && data@.subrange(i as int, j as int)
                == field_len(num, b@),
            _ => true,
        },
        data@.subrange(i as int, data@.len() as int).len() == 0 ==> (r matches Ok(o) && o
            is None),
        forall|t: u64, tail: Seq<u8>|
            data@.subrange(i as int, data@.len() as int) == #[trigger] (varint_bytes(t) + tail)
                && t != num * 8 + 2 ==> (r matches Ok(o) && o is None),
        forall|b: Seq<u8>, tail: Seq<u8>|
            data@.subrange(i as int, data@.len() as int) == #[trigger] (field_len(num, b) + tail)
                ==> (r matches Ok(o) && o matches Some(p) && p.0@ == b && p.1 == i + field_len(
                num,
                b,
            ).len()),
{
    let ghost suffix = data@.subrange(i as int, data@.len() as int);
    proof {
        assert forall|b: Seq<u8>, tail: Seq<u8>|
            suffix == #[trigger] (field_len(num, b) + tail) implies suffix == (varint_bytes(
            (num * 8 + 2) as u64,
        ) + (len_delim(b) + tail)) by {
            assert(field_len(num, b) + tail =~= varint_bytes((num * 8 + 2) as u64) + (len_delim(b)
                + tail));
        }
    }
    match read_varint(data, i) {
        None => Ok(None),
        Some((t, k)) => {
            if t != num * 8 + 2 {
                Ok(None)
            } else {
                proof {
                    assert forall|b: Seq<u8>, tail: Seq<u8>|
                        suffix == #[trigger] (field_len(num, b) + tail) implies data@.subrange(
                        k as int,
                        data@.len() as int,
                    ) == (len_delim(b) + tail) by {
                        assert(suffix == varint_bytes((num * 8 + 2) as u64) + (len_delim(b)
                            + tail));
                        assert(data@.subrange(k as int, data@.len() as int) =~= suffix.skip(k - i));
                        assert(suffix.skip(k - i) =~= len_delim(b) + tail);
                    }
                }
                match read_len_prefixed(data, k) {
                    None => Err(()),
                    Some((b, j)) => {
                        proof {
                            lemma_subrange_split(data@, i as int, k as int, j as int);
                        }
                        Ok(Some((b, j)))
                    },
                }
            }
        },
    }
}

/// Reads a fixed 64-bit field with number `num` at `i`, if one starts
/// there.  A canonical field of this number starting at `i` is always
/// parsed, and a field of another number is always left.
fn take_fix64_field(data: &[u8], i: usize, num: u64) -> (r: Result<Option<(u64, usize)>, ()>)
    requires
        i <= data@.len(),
        1 <= num <= 1000,
    ensures
        match r {
            Ok(Some(p)) => i < p.1 <= data@.len() && data@.subrange(i as int, p.1 as int)
                == field_fix64(num, p.0) && p.0 != 0,
            _ => true,
        },
        data@.subrange(i as int, data@.len() as int).len() == 0 ==> (r matches Ok(o) && o
            is None),
        forall|t: u64, tail: Seq<u8>|
            data@.subrange(i as int, data@.len() as int) == #[trigger] (varint_bytes(t) + tail)
                && t != num * 8 + 1 ==> (r matches Ok(o) && o is None),
        forall|v: u64, tail: Seq<u8>|
            data@.subrange(i as int, data@.len() as int) == #[trigger] (field_fix64(num, v)
                + tail) && v != 0 ==> (r matches Ok(o) && o matches Some(p) && p.0 == v && p.1 == i
                + field_fix64(num, v).len()),
{
    let ghost suffix = data@.subrange(i as int, data@.len() as int);
    proof {
        assert forall|v: u64, tail: Seq<u8>|
            suffix == #[trigger] (field_fix64(num, v) + tail) implies suffix == (varint_bytes(
            (num * 8 + 1) as u64,
        ) + (le64_bytes(v) + tail)) by {
            assert(field_fix64(num, v) + tail =~= varint_bytes((num * 8 + 1) as u64) + (le64_bytes(
                v,
            ) + tail));
        }
    }
    match read_varint(data, i) {
        None => Ok(None),
        Some((t, k)) => {
            if t != num * 8 + 1 {
                Ok(None)
            } else {
                proof {
                    assert forall|v: u64, tail: Seq<u8>|
                        suffix == #[trigger] (field_fix64(num, v) + tail) implies data@.subrange(
                        k as int,
                        data@.len() as int,
                    ) == (le64_bytes(v) + tail) by {
                        assert(suffix == varint_bytes((num * 8 + 1) as u64) + (le64_bytes(v)
                            + tail));
                        assert(data@.subrange(k as int, data@.len() as int) =~= suffix.skip(k - i));
                        assert(suffix.skip(k - i) =~= le64_bytes(v) + tail);
                    }
                }
                match read_le64(data, k) {
                    None => Err(()),
                    Some((v, j)) => {
                        if v == 0 {
                            Err(())
                        } else {
                            proof {
                                lemma_subrange_split(data@, i as int, k as int, j as int);
                            }
                            Ok(Some((v, j)))
                        }
                    },
                }
            }
        },
    }
}

/// Decodes a node address from a complete message body.  Exactly the
/// canonical encodings are accepted: decoding the canonical bytes of an
/// address gives that address back.
pub fn decode_node_address(data: &[u8]) -> (r: Option<NodeAddress>)
    ensures
        r matches Some(a) ==> node_address_bytes(a) == data@,
        forall|a: NodeAddress|
            data@ == #[trigger] node_address_bytes(a) ==> (r matches Some(x) && x.host_name@
                == a.host_name@ && x.port == a.port),
{
    proof {
        lemma_subrange_all(data@);
        assert forall|a: NodeAddress|
            data@ == #[trigger] node_address_bytes(a) implies (if a.host_name@.len() == 0 {
            data@ == opt_uint(2, a.port as u64)
        } else {
            data@ == field_len(1, a.host_name@) + opt_uint(2, a.port as u64)
        }) by {
            if a.host_name@.len() == 0 {
                assert(data@ =~= opt_uint(2, a.port as u64));
            }
        }
        assert forall|a: NodeAddress|
            data@ == #[trigger] node_address_bytes(a) && a.host_name@.len() == 0 && a.port != 0
            implies data@ == varint_bytes(16) + varint_bytes(a.port as u64) by {
            assert(data@ =~= varint_bytes(16) + varint_bytes(a.port as u64));
        }
    }
    let mut i: usize = 0;
    let host: Vec<u8>;
    match take_len_field(data, i, 1) {
        Err(_) => {
            proof {
                assert forall|a: NodeAddress| data@ != #[trigger] node_address_bytes(a) by {}
            }
            return None;
        },
        Ok(None) => {
            host = Vec::new();
        },
        Ok(Some((b, j))) => {
            if b.len() == 0 {
                proof {
                    assert forall|a: NodeAddress| data@ != #[trigger] node_address_bytes(a) by {}
                }
                return None;
            }
            host = b;
            i = j;
        },
    }
    proof {
        assert(data@.subrange(0, i as int) =~= opt_len(1, host@));
        assert forall|a: NodeAddress|
            data@ == #[trigger] node_address_bytes(a) implies a.host_name@ == host@
            && data@.subrange(i as int, data@.len() as int) == opt_uint(2, a.port as u64) by {
            if a.host_name@.len() == 0 {
                assert(data@.subrange(i as int, data@.len() as int) =~= data@);
            } else {
                assert(data@.subrange(i as int, data@.len() as int) =~= opt_uint(
                    2,
                    a.port as u64,
                ));
            }
        }
        assert forall|a: NodeAddress|
            data@ == #[trigger] node_address_bytes(a) && a.port != 0 implies data@.subrange(
            i as int,
            data@.len() as int,
        ) == field_uint(2, a.port as u64) + Seq::<u8>::empty() by {
            assert(data@.subrange(i as int, data@.len() as int) =~= field_uint(2, a.port as u64)
                + Seq::<u8>::empty());
        }
    }
    let p1: usize = i;
    let port: u16;
    match take_uint_field(data, i, 2) {
        Err(_) => {
            proof {
                assert forall|a: NodeAddress| data@ != #[trigger] node_address_bytes(a) by {}
            }
            return None;
        },
        Ok(None) => {
            port = 0;
        },
        Ok(Some((v, j))) => {
            if v > 65535 {
                proof {
                    assert forall|a: NodeAddress| data@ != #[trigger] node_address_bytes(a) by {}
                }
                return None;
            }
            port = v as u16;
            i = j;
        },
    }
    proof {
        lemma_subrange_split(data@, 0, p1 as int, i as int);
        assert(data@.subrange(p1 as int, i as int) =~= opt_uint(2, port as u64));
        assert forall|a: NodeAddress|
            data@ == #[trigger] node_address_bytes(a) implies a.port == port && i == data@.len() by {
            if a.port == 0 {
                assert(data@.subrange(p1 as int, data@.len() as int).len() == 0);
            } else {
                assert(field_uint(2, a.port as u64).len() == (data@.len() - p1));
            }
        }
    }
    if i != data.len() {
        proof {
            assert forall|a: NodeAddress| data@ != #[trigger] node_address_bytes(a) by {}
        }
        return None;
    }
    let a = NodeAddress { host_name: host, port };
    proof {
        assert(data@.subrange(0, data@.len() as int) =~= data@);
    }
    Some(a)
}

/// Exactly the canonical encodings are accepted: decoding the canonical
/// bytes of a value gives that value back, field for field.
pub fn decode_pub_key_ring(data: &[u8]) -> (r: Option<PubKeyRing>)
    ensures
        r matches Some(x) ==> pub_key_ring_bytes(x) == data@,
        forall|x: PubKeyRing|
            data@ == #[trigger] pub_key_ring_bytes(x) ==> (r matches Some(y) && y.signature_pub_key_bytes@ == x.signature_pub_key_bytes@
                && y.encryption_pub_key_bytes@ == x.encryption_pub_key_bytes@),
{
    proof {
        lemma_subrange_all(data@);
        assert forall|x: PubKeyRing|
            data@ == #[trigger] pub_key_ring_bytes(x) implies (if x.signature_pub_key_bytes@.len() == 0 {
            data@ == opt_len(2, x.encryption_pub_key_bytes@)
        } else {
            data@ == field_len(1, x.signature_pub_key_bytes@) + opt_len(2, x.encryption_pub_key_bytes@)
        }) by {
            if x.signature_pub_key_bytes@.len() == 0 {
                assert(data@ =~= opt_len(2, x.encryption_pub_key_bytes@));
            }
        }
        assert forall|x: PubKeyRing|
            data@ == #[trigger] pub_key_ring_bytes(x) && x.signature_pub_key_bytes@.len() == 0 && x.encryption_pub_key_bytes@.len() != 0
            implies data@ == varint_bytes(18) + (len_delim(x.encryption_pub_key_bytes@) + Seq::<u8>::empty())
            && data@ == field_len(2, x.encryption_pub_key_bytes@) + Seq::<u8>::empty() by {
            assert(data@ =~= varint_bytes(18) + (len_delim(x.encryption_pub_key_bytes@) + Seq::<u8>::empty()));
            assert(data@ =~= field_len(2, x.encryption_pub_key_bytes@) + Seq::<u8>::empty());
        }
    }
    let mut i: usize = 0;
    let sig: Vec<u8>;
    match take_len_field(data, i, 1) {
        Err(_) => {
            proof {
                assert forall|x: PubKeyRing| data@ != #[trigger] pub_key_ring_bytes(x) by {}
            }
            return None;
        },
        Ok(None) => {
            sig = Vec::new();
        },
        Ok(Some((b, j))) => {
            if b.len() == 0 {
                proof {
                    assert forall|x: PubKeyRing| data@ != #[trigger] pub_key_ring_bytes(x) by {}
                }
                return None;
            }
            sig = b;
            i = j;
        },
    }
    proof {
        assert(data@.subrange(0, i as int) =~= opt_len(1, sig@));
        assert forall|x: PubKeyRing|
            data@ == #[trigger] pub_key_ring_bytes(x) implies x.signature_pub_key_bytes@ == sig@ && data@.subrange(
            i as int,
            data@.len() as int,
        ) == opt_len(2, x.encryption_pub_key_bytes@) by {
            if x.signature_pub_key_bytes@.len() == 0 {
                assert(data@.subrange(i as int, data@.len() as int) =~= data@);
            } else {
                assert(data@.subrange(i as int, data@.len() as int) =~= opt_len(2, x.encryption_pub_key_bytes@));
            }
        }
        assert forall|x: PubKeyRing|
            data@ == #[trigger] pub_key_ring_bytes(x) && x.encryption_pub_key_bytes@.len() != 0 implies data@.subrange(
            i as int,
            data@.len() as int,
        ) == field_len(2, x.encryption_pub_key_bytes@) + Seq::<u8>::empty() by {
            assert(data@.subrange(i as int, data@.len() as int) =~= field_len(2, x.encryption_pub_key_bytes@)
                + Seq::<u8>::empty());
        }
    }
    let p2: usize = i;
    let enc: Vec<u8>;
    match take_len_field(data, i, 2) {
        Err(_) => {
            proof {
                assert forall|x: PubKeyRing| data@ != #[trigger] pub_key_ring_bytes(x) by {}
            }
            return None;
        },
        Ok(None) => {
            enc = Vec::new();
        },
        Ok(Some((b, j))) => {
            if b.len() == 0 {
                proof {
                    assert forall|x: PubKeyRing| data@ != #[trigger] pub_key_ring_bytes(x) by {}
                }
                return None;
            }
            enc = b;
            i = j;
        },
    }
    proof {
        lemma_subrange_split(data@, 0, p2 as int, i as int);
        assert(data@.subrange(p2 as int, i as int) =~= opt_len(2, enc@));
        assert forall|x: PubKeyRing|
            data@ == #[trigger] pub_key_ring_bytes(x) implies x.encryption_pub_key_bytes@ == enc@ && i == data@.len() by {
            if x.encryption_pub_key_bytes@.len() == 0 {
                assert(data@.subrange(p2 as int, data@.len() as int).len() == 0);
            } else {
                assert(field_len(2, x.encryption_pub_key_bytes@).len() == (data@.len() - p2));
            }
        }
    }
    if i != data.len() {
        proof {
            assert forall|x: PubKeyRing| data@ != #[trigger] pub_key_ring_bytes(x) by {}
        }
        return None;
    }
    proof {
        assert(data@.subrange(0, data@.len() as int) =~= data@);
    }
    Some(PubKeyRing { signature_pub_key_bytes: sig, encryption_pub_key_bytes: enc })
}

/// Decodes one key-value entry of a string map; both fields are always
/// present in the canonical form, and decoding the canonical bytes of an
/// entry gives that entry back.
pub fn decode_map_entry(data: &[u8]) -> (r: Option<(Vec<u8>, Vec<u8>)>)
    ensures
        r matches Some(e) ==> map_entry_bytes(e) == data@,
        forall|e: (Vec<u8>, Vec<u8>)|
            data@ == #[trigger] map_entry_bytes(e) ==> (r matches Some(y) && y.0@ == e.0@ && y.1@
                == e.1@),
{
    proof {
        lemma_subrange_all(data@);
        assert forall|e: (Vec<u8>, Vec<u8>)|
            data@ == #[trigger] map_entry_bytes(e) implies data@ == field_len(1, e.0@) + (
        field_len(2, e.1@) + Seq::<u8>::empty()) by {
            assert(data@ =~= field_len(1, e.0@) + (field_len(2, e.1@) + Seq::<u8>::empty()));
        }
    }
    let mut i: usize = 0;
    let key: Vec<u8>;
    match take_len_field(data, i, 1) {
        Ok(Some((b, j))) => {
            key = b;
            i = j;
        },
        _ => {
            proof {
                assert forall|e: (Vec<u8>, Vec<u8>)| data@ != #[trigger] map_entry_bytes(e) by {}
            }
            return None;
        },
    }
    proof {
        assert forall|e: (Vec<u8>, Vec<u8>)|
            data@ == #[trigger] map_entry_bytes(e) implies e.0@ == key@ && data@.subrange(
            i as int,
            data@.len() as int,
        ) == field_len(2, e.1@) + Seq::<u8>::empty() by {
            assert(data@.subrange(i as int, data@.len() as int) =~= field_len(2, e.1@)
                + Seq::<u8>::empty());
        }
    }
    let p2: usize = i;
    let value: Vec<u8>;
    match take_len_field(data, i, 2) {
        Ok(Some((b, j))) => {
            value = b;
            i = j;
        },
        _ => {
            proof {
                assert forall|e: (Vec<u8>, Vec<u8>)| data@ != #[trigger] map_entry_bytes(e) by {}
            }
            return None;
        },
    }
    proof {
        lemma_subrange_split(data@, 0, p2 as int, i as int);
        assert forall|e: (Vec<u8>, Vec<u8>)|
            data@ == #[trigger] map_entry_bytes(e) implies e.1@ == value@ && i == data@.len() by {
            assert(field_len(2, e.1@).len() == (data@.len() - p2));
        }
    }
    if i != data.len() {
        proof {
            assert forall|e: (Vec<u8>, Vec<u8>)| data@ != #[trigger] map_entry_bytes(e) by {}
        }
        return None;
    }
    proof {
        assert(data@.subrange(0, data@.len() as int) =~= data@);
    }
    Some((key, value))
}

/// View-level equality of optional node addresses.
pub open spec fn opt_node_address_eqv(a: Option<NodeAddress>, b: Option<NodeAddress>) -> bool {
    match (a, b) {
        (None, None) => true,
        (Some(x), Some(y)) => x.host_name@ == y.host_name@ && x.port == y.port,
        _ => false,
    }
}

/// View-level pointwise equality of node-address lists.
pub open spec fn addr_seq_eqv(a: Seq<NodeAddress>, b: Seq<NodeAddress>) -> bool {
    a.len() == b.len() && forall|t: int|
        0 <= t < a.len() ==> (#[trigger] a[t]).host_name@ == b[t].host_name@ && a[t].port
            == b[t].port
}

/// View-level pointwise equality of byte-string lists.
pub open spec fn str_seq_eqv(a: Seq<Vec<u8>>, b: Seq<Vec<u8>>) -> bool {
    a.len() == b.len() && forall|t: int| 0 <= t < a.len() ==> (#[trigger] a[t])@ == b[t]@
}

/// View-level pointwise equality of key-value entry lists.
pub open spec fn map_seq_eqv(a: Seq<(Vec<u8>, Vec<u8>)>, b: Seq<(Vec<u8>, Vec<u8>)>) -> bool {
    a.len() == b.len() && forall|t: int|
        0 <= t < a.len() ==> (#[trigger] a[t]).0@ == b[t].0@ && a[t].1@ == b[t].1@
}

/// View-level equality of optional key rings.
pub open spec fn opt_pub_key_ring_eqv(a: Option<PubKeyRing>, b: Option<PubKeyRing>) -> bool {
    match (a, b) {
        (None, None) => true,
        (Some(x), Some(y)) => x.signature_pub_key_bytes@ == y.signature_pub_key_bytes@
            && x.encryption_pub_key_bytes@ == y.encryption_pub_key_bytes@,
        _ => false,
    }
}

/// View-level equality of two alerts.
pub open spec fn alert_eqv(a: Alert, b: Alert) -> bool {
    &&& a.message@ == b.message@
    &&& a.requires_update == b.requires_update
    &&& a.min_version@ == b.min_version@
    &&& a.owner_pub_key_bytes@ == b.owner_pub_key_bytes@
    &&& a.signature_as_base64@ == b.signature_as_base64@
}

/// The byte-string field of an alert carried under field number `k`.
pub open spec fn alert_len_field(a: Alert, k: int) -> Seq<u8> {
    if k == 1 { a.message@ }
    else if k == 3 { a.min_version@ }
    else if k == 4 { a.owner_pub_key_bytes@ }
    else { a.signature_as_base64@ }
}

/// Reads one optional byte-string field of an alert at `i`, carrying the
/// canonical-suffix bookkeeping for every alert the input could encode:
/// a present field is parsed to exactly the field's bytes, an absent one
/// is left, and an empty present field is refused.
#[verifier::rlimit(100)]
#[verifier::spinoff_prover]
fn alert_take_len(data: &[u8], i: usize, k: u64) -> (r: Result<Option<(Vec<u8>, usize)>, ()>)
    requires
        i <= data@.len(),
        k == 1 || k == 3 || k == 4 || k == 5,
    ensures
        match r {
            Ok(Some((b, j))) => i < j <= data@.len() && data@.subrange(i as int, j as int)
                == field_len(k, b@) && b@.len() != 0,
            _ => true,
        },
        forall|x: Alert|
            data@.subrange(i as int, data@.len() as int) == #[trigger] alert_fields_from(
                x,
                k as int,
            ) ==> (if alert_len_field(x, k as int).len() == 0 {
                (r matches Ok(o) && o is None) && data@.subrange(i as int, data@.len() as int)
                    == alert_fields_from(x, k as int + 1)
            } else {
                r matches Ok(o) && o matches Some(p) && p.0@ == alert_len_field(x, k as int)
                    && data@.subrange(p.1 as int, data@.len() as int) == alert_fields_from(
                    x,
                    k as int + 1,
                )
            }),
{
    let tk = take_len_field(data, i, k);
    proof {
        assert forall|x: Alert|
            data@.subrange(i as int, data@.len() as int) == #[trigger] alert_fields_from(
                x,
                k as int,
            ) implies (if alert_len_field(x, k as int).len() == 0 {
            (tk matches Ok(o) && o is None) && data@.subrange(i as int, data@.len() as int)
                == alert_fields_from(x, k as int + 1)
        } else {
            tk matches Ok(o) && o matches Some(p) && p.0@ == alert_len_field(x, k as int) && p.1
                == i + alert_chunk(x, k as int).len() && data@.subrange(
                p.1 as int,
                data@.len() as int,
            ) == alert_fields_from(x, k as int + 1)
        }) by {
            if alert_len_field(x, k as int).len() == 0 {
                lemma_alert_field_absent(data@, i as int, x, k as int);
                if data@.subrange(i as int, data@.len() as int).len() != 0 {
                    let (t, rest) = choose|t: u64, rest: Seq<u8>|
                        data@.subrange(i as int, data@.len() as int) == #[trigger] (varint_bytes(t)
                            + rest) && 8 * (k as int + 1) <= t;
                }
            } else {
                lemma_alert_field_present(data@, i as int, x, k as int);
                assert(data@.subrange(i as int, data@.len() as int) == field_len(
                    k,
                    alert_len_field(x, k as int),
                ) + alert_fields_from(x, k as int + 1));
            }
        }
    }
    match tk {
        Err(_) => Err(()),
        Ok(None) => Ok(None),
        Ok(Some((b, j))) => {
            if b.len() == 0 {
                Err(())
            } else {
                Ok(Some((b, j)))
            }
        },
    }
}

/// Reads the optional flag field of an alert at `i`, with the same
/// bookkeeping: present means encoded as 1, absent means false.
#[verifier::rlimit(100)]
#[verifier::spinoff_prover]
fn alert_take_flag(data: &[u8], i: usize) -> (r: Result<Option<usize>, ()>)
    requires
        i <= data@.len(),
    ensures
        match r {
            Ok(Some(j)) => i < j <= data@.len() && data@.subrange(i as int, j as int) == field_uint(
                2,
                1,
            ),
            _ => true,
        },
        forall|x: Alert|
            data@.subrange(i as int, data@.len() as int) == #[trigger] alert_fields_from(x, 2)
                ==> (if !x.requires_update {
                (r matches Ok(o) && o is None) && data@.subrange(i as int, data@.len() as int)
                    == alert_fields_from(x, 3)
            } else {
                r matches Ok(o) && o matches Some(j) && data@.subrange(
                    j as int,
                    data@.len() as int,
                ) == alert_fields_from(x, 3)
            }),
{
    let tk = take_uint_field(data, i, 2);
    proof {
        assert forall|x: Alert|
            data@.subrange(i as int, data@.len() as int) == #[trigger] alert_fields_from(x, 2)
            implies (if !x.requires_update {
            (tk matches Ok(o) && o is None) && data@.subrange(i as int, data@.len() as int)
                == alert_fields_from(x, 3)
        } else {
            tk matches Ok(o) && o matches Some(p) && p.0 == 1 && p.1 == i + alert_chunk(
                x,
                2,
            ).len() && data@.subrange(p.1 as int, data@.len() as int) == alert_fields_from(x, 3)
        }) by {
            if !x.requires_update {
                lemma_alert_field_absent(data@, i as int, x, 2);
                if data@.subrange(i as int, data@.len() as int).len() != 0 {
                    let (t, rest) = choose|t: u64, rest: Seq<u8>|
                        data@.subrange(i as int, data@.len() as int) == #[trigger] (varint_bytes(t)
                            + rest) && 8 * 3 <= t;
                }
            } else {
                lemma_alert_field_present(data@, i as int, x, 2);
                assert(data@.subrange(i as int, data@.len() as int) == field_uint(2, 1)
                    + alert_fields_from(x, 3));
            }
        }
    }
    match tk {
        Err(_) => Err(()),
        Ok(None) => Ok(None),
        Ok(Some((v, j))) => {
            if v != 1 {
                Err(())
            } else {
                Ok(Some(j))
            }
        },
    }
}

/// Decodes an alert from a complete message body.  Exactly the canonical
/// encodings are accepted: decoding the canonical bytes of a value gives
/// that value back, field for field.
#[verifier::rlimit(100)]
#[verifier::spinoff_prover]
pub fn decode_alert(data: &[u8]) -> (r: Option<Alert>)
    ensures
        r matches Some(x) ==> alert_bytes(x) == data@,
        forall|x: Alert|
            data@ == #[trigger] alert_bytes(x) ==> (r matches Some(y) && alert_eqv(x, y)),
{
    proof {
        lemma_subrange_all(data@);
        assert forall|x: Alert|
            data@ == #[trigger] alert_bytes(x) implies data@.subrange(0, data@.len() as int)
            == alert_fields_from(x, 1) by {
            lemma_alert_fields_cat(x);
        }
    }
    let mut i: usize = 0;
    let message: Vec<u8>;
    match alert_take_len(data, i, 1) {
        Err(_) => {
            proof {
                assert forall|x: Alert| data@ != #[trigger] alert_bytes(x) by {}
            }
            return None;
        },
        Ok(None) => {
            message = Vec::new();
        },
        Ok(Some((b, j))) => {
            message = b;
            i = j;
        },
    }
    proof {
        assert(data@.subrange(0, i as int) =~= opt_len(1, message@));
        assert forall|x: Alert|
            data@ == #[trigger] alert_bytes(x) implies x.message@ == message@ && data@.subrange(
            i as int,
            data@.len() as int,
        ) == alert_fields_from(x, 2) by {
            if x.message@.len() == 0 {
                assert(x.message@ =~= message@);
            }
        }
    }
    let p2: usize = i;
    let requires_update: bool;
    match alert_take_flag(data, i) {
        Err(_) => {
            proof {
                assert forall|x: Alert| data@ != #[trigger] alert_bytes(x) by {}
            }
            return None;
        },
        Ok(None) => {
            requires_update = false;
        },
        Ok(Some(j)) => {
            requires_update = true;
            i = j;
        },
    }
    proof {
        lemma_subrange_split(data@, 0, p2 as int, i as int);
        assert(data@.subrange(p2 as int, i as int) =~= opt_bool(2, requires_update));
        assert forall|x: Alert|
            data@ == #[trigger] alert_bytes(x) implies x.requires_update == requires_update
            && data@.subrange(i as int, data@.len() as int) == alert_fields_from(x, 3) by {}
    }
    let p3: usize = i;
    let min_version: Vec<u8>;
    match alert_take_len(data, i, 3) {
        Err(_) => {
            proof {
                assert forall|x: Alert| data@ != #[trigger] alert_bytes(x) by {}
            }
            return None;
        },
        Ok(None) => {
            min_version = Vec::new();
        },
        Ok(Some((b, j))) => {
            min_version = b;
            i = j;
        },
    }
    proof {
        lemma_subrange_split(data@, 0, p3 as int, i as int);
        assert(data@.subrange(p3 as int, i as int) =~= opt_len(3, min_version@));
        assert forall|x: Alert|
            data@ == #[trigger] alert_bytes(x) implies x.min_version@ == min_version@
            && data@.subrange(i as int, data@.len() as int) == alert_fields_from(x, 4) by {
            if x.min_version@.len() == 0 {
                assert(x.min_version@ =~= min_version@);
            }
        }
    }
    let p4: usize = i;
    let owner_pub_key_bytes: Vec<u8>;
    match alert_take_len(data, i, 4) {
        Err(_) => {
            proof {
                assert forall|x: Alert| data@ != #[trigger] alert_bytes(x) by {}
            }
            return None;
        },
        Ok(None) => {
            owner_pub_key_bytes = Vec::new();
        },
        Ok(Some((b, j))) => {
            owner_pub_key_bytes = b;
            i = j;
        },
    }
    proof {
        lemma_subrange_split(data@, 0, p4 as int, i as int);
        assert(data@.subrange(p4 as int, i as int) =~= opt_len(4, owner_pub_key_bytes@));
        assert forall|x: Alert|
            data@ == #[trigger] alert_bytes(x) implies x.owner_pub_key_bytes@
            == owner_pub_key_bytes@ && data@.subrange(i as int, data@.len() as int)
            == alert_fields_from(x, 5) by {
            if x.owner_pub_key_bytes@.len() == 0 {
                assert(x.owner_pub_key_bytes@ =~= owner_pub_key_bytes@);
            }
        }
    }
    let p5: usize = i;
    let signature_as_base64: Vec<u8>;
    match alert_take_len(data, i, 5) {
        Err(_) => {
            proof {
                assert forall|x: Alert| data@ != #[trigger] alert_bytes(x) by {}
            }
            return None;
        },
        Ok(None) => {
            signature_as_base64 = Vec::new();
        },
        Ok(Some((b, j))) => {
            signature_as_base64 = b;
            i = j;
        },
    }
    proof {
        lemma_subrange_split(data@, 0, p5 as int, i as int);
        assert(data@.subrange(p5 as int, i as int) =~= opt_len(5, signature_as_base64@));
        assert forall|x: Alert|
            data@ == #[trigger] alert_bytes(x) implies x.signature_as_base64@
            == signature_as_base64@ && i == data@.len() by {
            if x.signature_as_base64@.len() == 0 {
                assert(x.signature_as_base64@ =~= signature_as_base64@);
            }
            assert(data@.subrange(i as int, data@.len() as int).len() == 0);
        }
    }
    if i != data.len() {
        proof {
            assert forall|x: Alert| data@ != #[trigger] alert_bytes(x) by {}
        }
        return None;
    }
    proof {
        assert(data@.subrange(0, data@.len() as int) =~= data@);
    }
    Some(Alert { message, requires_update, min_version, owner_pub_key_bytes, signature_as_base64 })
}

/// Exactly the canonical encodings are accepted: decoding the canonical
/// bytes of a value gives that value back, field for field.
pub fn decode_temp_proposal(data: &[u8]) -> (r: Option<TempProposalPayload>)
    ensures
        r matches Some(x) ==> temp_proposal_bytes(x) == data@,
        forall|x: TempProposalPayload|
            data@ == #[trigger] temp_proposal_bytes(x) ==> (r matches Some(y) && y.proposal@ == x.proposal@
                && y.owner_pub_key_encoded@ == x.owner_pub_key_encoded@),
{
    proof {
        lemma_subrange_all(data@);
        assert forall|x: TempProposalPayload|
            data@ == #[trigger] temp_proposal_bytes(x) implies (if x.proposal@.len() == 0 {
            data@ == opt_len(2, x.owner_pub_key_encoded@)
        } else {
            data@ == field_len(1, x.proposal@) + opt_len(2, x.owner_pub_key_encoded@)
        }) by {
            if x.proposal@.len() == 0 {
                assert(data@ =~= opt_len(2, x.owner_pub_key_encoded@));
            }
        }
        assert forall|x: TempProposalPayload|
            data@ == #[trigger] temp_proposal_bytes(x) && x.proposal@.len() == 0 && x.owner_pub_key_encoded@.len() != 0
            implies data@ == varint_bytes(18) + (len_delim(x.owner_pub_key_encoded@) + Seq::<u8>::empty())
            && data@ == field_len(2, x.owner_pub_key_encoded@) + Seq::<u8>::empty() by {
            assert(data@ =~= varint_bytes(18) + (len_delim(x.owner_pub_key_encoded@) + Seq::<u8>::empty()));
            assert(data@ =~= field_len(2, x.owner_pub_key_encoded@) + Seq::<u8>::empty());
        }
    }
    let mut i: usize = 0;
    let proposal: Vec<u8>;
    match take_len_field(data, i, 1) {
        Err(_) => {
            proof {
                assert forall|x: TempProposalPayload| data@ != #[trigger] temp_proposal_bytes(x) by {}
            }
            return None;
        },
        Ok(None) => {
            proposal = Vec::new();
        },
        Ok(Some((b, j))) => {
            if b.len() == 0 {
                proof {
                    assert forall|x: TempProposalPayload| data@ != #[trigger] temp_proposal_bytes(x) by {}
                }
                return None;
            }
            proposal = b;
            i = j;
        },
    }
    proof {
        assert(data@.subrange(0, i as int) =~= opt_len(1, proposal@));
        assert forall|x: TempProposalPayload|
            data@ == #[trigger] temp_proposal_bytes(x) implies x.proposal@ == proposal@ && data@.subrange(
            i as int,
            data@.len() as int,
        ) == opt_len(2, x.owner_pub_key_encoded@) by {
            if x.proposal@.len() == 0 {
                assert(data@.subrange(i as int, data@.len() as int) =~= data@);
            } else {
                assert(data@.subrange(i as int, data@.len() as int) =~= opt_len(2, x.owner_pub_key_encoded@));
            }
        }
        assert forall|x: TempProposalPayload|
            data@ == #[trigger] temp_proposal_bytes(x) && x.owner_pub_key_encoded@.len() != 0 implies data@.subrange(
            i as int,
            data@.len() as int,
        ) == field_len(2, x.owner_pub_key_encoded@) + Seq::<u8>::empty() by {
            assert(data@.subrange(i as int, data@.len() as int) =~= field_len(2, x.owner_pub_key_encoded@)
                + Seq::<u8>::empty());
        }
    }
    let p2: usize = i;
    let owner_pub_key_encoded: Vec<u8>;
    match take_len_field(data, i, 2) {
        Err(_) => {
            proof {
                assert forall|x: TempProposalPayload| data@ != #[trigger] temp_proposal_bytes(x) by {}
            }
            return None;
        },
        Ok(None) => {
            owner_pub_key_encoded = Vec::new();
        },
        Ok(Some((b, j))) => {
            if b.len() == 0 {
                proof {
                    assert forall|x: TempProposalPayload| data@ != #[trigger] temp_proposal_bytes(x) by {}
                }
                return None;
            }
            owner_pub_key_encoded = b;
            i = j;
        },
    }
    proof {
        lemma_subrange_split(data@, 0, p2 as int, i as int);
        assert(data@.subrange(p2 as int, i as int) =~= opt_len(2, owner_pub_key_encoded@));
        assert forall|x: TempProposalPayload|
            data@ == #[trigger] temp_proposal_bytes(x) implies x.owner_pub_key_encoded@ == owner_pub_key_encoded@ && i == data@.len() by {
            if x.owner_pub_key_encoded@.len() == 0 {
                assert(data@.subrange(p2 as int, data@.len() as int).len() == 0);
            } else {
                assert(field_len(2, x.owner_pub_key_encoded@).len() == (data@.len() - p2));
            }
        }
    }
    if i != data.len() {
        proof {
            assert forall|x: TempProposalPayload| data@ != #[trigger] temp_proposal_bytes(x) by {}
        }
        return None;
    }
    proof {
        assert(data@.subrange(0, data@.len() as int) =~= data@);
    }
    Some(TempProposalPayload { proposal, owner_pub_key_encoded })
}

/// Decodes a mailbox payload from a complete message body.  Exactly the
/// canonical encodings are accepted: decoding the canonical bytes of a
/// value gives that value back, field for field.
pub fn decode_mailbox(data: &[u8]) -> (r: Option<MailboxStoragePayload>)
    ensures
        r matches Some(x) ==> mailbox_bytes(x) == data@,
        forall|x: MailboxStoragePayload|
            data@ == #[trigger] mailbox_bytes(x) ==> (r matches Some(y)
                && y.prefixed_sealed_and_signed@ == x.prefixed_sealed_and_signed@
                && y.sender_pub_key_for_add_operation_bytes@
                == x.sender_pub_key_for_add_operation_bytes@
                && y.receiver_pub_key_for_remove_operation_bytes@
                == x.receiver_pub_key_for_remove_operation_bytes@),
{
    proof {
        lemma_subrange_all(data@);
        assert forall|x: MailboxStoragePayload|
            data@ == #[trigger] mailbox_bytes(x) implies (if x.prefixed_sealed_and_signed@.len()
            == 0 {
            data@ == opt_len(2, x.sender_pub_key_for_add_operation_bytes@) + opt_len(
                3,
                x.receiver_pub_key_for_remove_operation_bytes@,
            )
        } else {
            data@ == field_len(1, x.prefixed_sealed_and_signed@) + (opt_len(
                2,
                x.sender_pub_key_for_add_operation_bytes@,
            ) + opt_len(3, x.receiver_pub_key_for_remove_operation_bytes@))
        }) by {
            if x.prefixed_sealed_and_signed@.len() == 0 {
                assert(data@ =~= opt_len(2, x.sender_pub_key_for_add_operation_bytes@) + opt_len(
                    3,
                    x.receiver_pub_key_for_remove_operation_bytes@,
                ));
            } else {
                assert(data@ =~= field_len(1, x.prefixed_sealed_and_signed@) + (opt_len(
                    2,
                    x.sender_pub_key_for_add_operation_bytes@,
                ) + opt_len(3, x.receiver_pub_key_for_remove_operation_bytes@)));
            }
        }
        assert forall|x: MailboxStoragePayload|
            data@ == #[trigger] mailbox_bytes(x) && x.prefixed_sealed_and_signed@.len() == 0
            && x.sender_pub_key_for_add_operation_bytes@.len() != 0 implies data@ == varint_bytes(
            18,
        ) + (len_delim(x.sender_pub_key_for_add_operation_bytes@) + opt_len(
            3,
            x.receiver_pub_key_for_remove_operation_bytes@,
        )) by {
            assert(data@ =~= varint_bytes(18) + (len_delim(
                x.sender_pub_key_for_add_operation_bytes@,
            ) + opt_len(3, x.receiver_pub_key_for_remove_operation_bytes@)));
        }
        assert forall|x: MailboxStoragePayload|
            data@ == #[trigger] mailbox_bytes(x) && x.prefixed_sealed_and_signed@.len() == 0
            && x.sender_pub_key_for_add_operation_bytes@.len() == 0
            && x.receiver_pub_key_for_remove_operation_bytes@.len() != 0 implies data@
            == varint_bytes(26) + (len_delim(x.receiver_pub_key_for_remove_operation_bytes@)
            + Seq::<u8>::empty()) by {
            assert(data@ =~= varint_bytes(26) + (len_delim(
                x.receiver_pub_key_for_remove_operation_bytes@,
            ) + Seq::<u8>::empty()));
        }
    }
    let mut i: usize = 0;
    let prefixed: Vec<u8>;
    match take_len_field(data, i, 1) {
        Err(_) => {
            proof {
                assert forall|x: MailboxStoragePayload|
                    data@ != #[trigger] mailbox_bytes(x) by {}
            }
            return None;
        },
        Ok(None) => {
            prefixed = Vec::new();
        },
        Ok(Some((b, j))) => {
            if b.len() == 0 {
                proof {
                    assert forall|x: MailboxStoragePayload|
                        data@ != #[trigger] mailbox_bytes(x) by {}
                }
                return None;
            }
            prefixed = b;
            i = j;
        },
    }
    proof {
        assert(data@.subrange(0, i as int) =~= opt_len(1, prefixed@));
        assert forall|x: MailboxStoragePayload|
            data@ == #[trigger] mailbox_bytes(x) implies x.prefixed_sealed_and_signed@
            == prefixed@ && data@.subrange(i as int, data@.len() as int) == opt_len(
            2,
            x.sender_pub_key_for_add_operation_bytes@,
        ) + opt_len(3, x.receiver_pub_key_for_remove_operation_bytes@) by {
            if x.prefixed_sealed_and_signed@.len() == 0 {
                assert(data@.subrange(i as int, data@.len() as int) =~= data@);
            } else {
                assert(data@.subrange(i as int, data@.len() as int) =~= opt_len(
                    2,
                    x.sender_pub_key_for_add_operation_bytes@,
                ) + opt_len(3, x.receiver_pub_key_for_remove_operation_bytes@));
            }
        }
        assert forall|x: MailboxStoragePayload|
            data@ == #[trigger] mailbox_bytes(x)
            && x.sender_pub_key_for_add_operation_bytes@.len() != 0 implies data@.subrange(
            i as int,
            data@.len() as int,
        ) == field_len(2, x.sender_pub_key_for_add_operation_bytes@) + opt_len(
            3,
            x.receiver_pub_key_for_remove_operation_bytes@,
        ) by {
            assert(data@.subrange(i as int, data@.len() as int) =~= field_len(
                2,
                x.sender_pub_key_for_add_operation_bytes@,
            ) + opt_len(3, x.receiver_pub_key_for_remove_operation_bytes@));
        }
        assert forall|x: MailboxStoragePayload|
            data@ == #[trigger] mailbox_bytes(x)
            && x.sender_pub_key_for_add_operation_bytes@.len() == 0
            && x.receiver_pub_key_for_remove_operation_bytes@.len() != 0 implies data@.subrange(
            i as int,
            data@.len() as int,
        ) == varint_bytes(26) + (len_delim(x.receiver_pub_key_for_remove_operation_bytes@)
            + Seq::<u8>::empty()) by {
            assert(data@.subrange(i as int, data@.len() as int) =~= varint_bytes(26) + (len_delim(
                x.receiver_pub_key_for_remove_operation_bytes@,
            ) + Seq::<u8>::empty()));
        }
    }
    let p2: usize = i;
    let sender: Vec<u8>;
    match take_len_field(data, i, 2) {
        Err(_) => {
            proof {
                assert forall|x: MailboxStoragePayload|
                    data@ != #[trigger] mailbox_bytes(x) by {}
            }
            return None;
        },
        Ok(None) => {
            sender = Vec::new();
        },
        Ok(Some((b, j))) => {
            if b.len() == 0 {
                proof {
                    assert forall|x: MailboxStoragePayload|
                        data@ != #[trigger] mailbox_bytes(x) by {}
                }
                return None;
            }
            sender = b;
            i = j;
        },
    }
    proof {
        lemma_subrange_split(data@, 0, p2 as int, i as int);
        assert(data@.subrange(p2 as int, i as int) =~= opt_len(2, sender@));
        assert forall|x: MailboxStoragePayload|
            data@ == #[trigger] mailbox_bytes(x) implies
            x.sender_pub_key_for_add_operation_bytes@ == sender@ && data@.subrange(
            i as int,
            data@.len() as int,
        ) == opt_len(3, x.receiver_pub_key_for_remove_operation_bytes@) by {
            assert(data@.subrange(i as int, data@.len() as int) =~= opt_len(
                    3,
                    x.receiver_pub_key_for_remove_operation_bytes@,
                ));
        }
        assert forall|x: MailboxStoragePayload|
            data@ == #[trigger] mailbox_bytes(x)
            && x.receiver_pub_key_for_remove_operation_bytes@.len() != 0 implies data@.subrange(
            i as int,
            data@.len() as int,
        ) == field_len(3, x.receiver_pub_key_for_remove_operation_bytes@) + Seq::<u8>::empty() by {
            assert(data@.subrange(i as int, data@.len() as int) =~= field_len(
                3,
                x.receiver_pub_key_for_remove_operation_bytes@,
            ) + Seq::<u8>::empty());
        }
    }
    let p3: usize = i;
    let receiver: Vec<u8>;
    match take_len_field(data, i, 3) {
        Err(_) => {
            proof {
                assert forall|x: MailboxStoragePayload|
                    data@ != #[trigger] mailbox_bytes(x) by {}
            }
            return None;
        },
        Ok(None) => {
            receiver = Vec::new();
        },
        Ok(Some((b, j))) => {
            if b.len() == 0 {
                proof {
                    assert forall|x: MailboxStoragePayload|
                        data@ != #[trigger] mailbox_bytes(x) by {}
                }
                return None;
            }
            receiver = b;
            i = j;
        },
    }
    proof {
        lemma_subrange_split(data@, 0, p3 as int, i as int);
        assert(data@.subrange(p3 as int, i as int) =~= opt_len(3, receiver@));
        assert forall|x: MailboxStoragePayload|
            data@ == #[trigger] mailbox_bytes(x) implies
            x.receiver_pub_key_for_remove_operation_bytes@ == receiver@ && i == data@.len() by {
            if x.receiver_pub_key_for_remove_operation_bytes@.len() == 0 {
                assert(data@.subrange(p3 as int, data@.len() as int).len() == 0);
            } else {
                assert(field_len(3, x.receiver_pub_key_for_remove_operation_bytes@).len() == (
                data@.len() - p3));
            }
        }
    }
    if i != data.len() {
        proof {
            assert forall|x: MailboxStoragePayload| data@ != #[trigger] mailbox_bytes(x) by {}
        }
        return None;
    }
    proof {
        assert(data@.subrange(0, data@.len() as int) =~= data@);
    }
    Some(MailboxStoragePayload {
        prefixed_sealed_and_signed: prefixed,
        sender_pub_key_for_add_operation_bytes: sender,
        receiver_pub_key_for_remove_operation_bytes: receiver,
    })
}

/// View-level equality of two trade-statistics records.
pub open spec fn ts_eqv(a: TradeStatistics, b: TradeStatistics) -> bool {
    &&& a.currency@ == b.currency@
    &&& a.trade_price == b.trade_price
    &&& a.trade_amount == b.trade_amount
    &&& a.trade_date == b.trade_date
    &&& a.signature_pub_key_bytes@ == b.signature_pub_key_bytes@
}

/// The byte-string field of a trade-statistics record under field `k`.
pub open spec fn ts_len_field(x: TradeStatistics, k: int) -> Seq<u8> {
    if k == 1 { x.currency@ } else { x.signature_pub_key_bytes@ }
}

/// The scalar field of a trade-statistics record under field `k`.
pub open spec fn ts_uint_field(x: TradeStatistics, k: int) -> u64 {
    if k == 2 { x.trade_price } else if k == 3 { x.trade_amount } else { x.trade_date }
}

/// Reads one optional byte-string field of a trade-statistics record at
/// `i`, carrying the canonical-suffix bookkeeping for every record the
/// input could encode.
#[verifier::rlimit(100)]
#[verifier::spinoff_prover]
fn ts_take_len(data: &[u8], i: usize, k: u64) -> (r: Result<Option<(Vec<u8>, usize)>, ()>)
    requires
        i <= data@.len(),
        k == 1 || k == 5,
    ensures
        match r {
            Ok(Some((b, j))) => i < j <= data@.len() && data@.subrange(i as int, j as int)
                == field_len(k, b@) && b@.len() != 0,
            _ => true,
        },
        forall|x: TradeStatistics|
            data@.subrange(i as int, data@.len() as int) == #[trigger] ts_fields_from(x, k as int)
                ==> (if ts_len_field(x, k as int).len() == 0 {
                (r matches Ok(o) && o is None) && data@.subrange(i as int, data@.len() as int)
                    == ts_fields_from(x, k as int + 1)
            } else {
                r matches Ok(o) && o matches Some(p) && p.0@ == ts_len_field(x, k as int)
                    && data@.subrange(p.1 as int, data@.len() as int) == ts_fields_from(
                    x,
                    k as int + 1,
                )
            }),
{
    let tk = take_len_field(data, i, k);
    proof {
        assert forall|x: TradeStatistics|
            data@.subrange(i as int, data@.len() as int) == #[trigger] ts_fields_from(x, k as int)
            implies (if ts_len_field(x, k as int).len() == 0 {
            (tk matches Ok(o) && o is None) && data@.subrange(i as int, data@.len() as int)
                == ts_fields_from(x, k as int + 1)
        } else {
            tk matches Ok(o) && o matches Some(p) && p.0@ == ts_len_field(x, k as int) && p.1 == i
                + ts_chunk(x, k as int).len() && data@.subrange(p.1 as int, data@.len() as int)
                == ts_fields_from(x, k as int + 1)
        }) by {
            if ts_len_field(x, k as int).len() == 0 {
                lemma_ts_field_absent(data@, i as int, x, k as int);
                if data@.subrange(i as int, data@.len() as int).len() != 0 {
                    let (t, rest) = choose|t: u64, rest: Seq<u8>|
                        data@.subrange(i as int, data@.len() as int) == #[trigger] (varint_bytes(t)
                            + rest) && 8 * (k as int + 1) <= t;
                }
            } else {
                lemma_ts_field_present(data@, i as int, x, k as int);
                assert(data@.subrange(i as int, data@.len() as int) == field_len(
                    k,
                    ts_len_field(x, k as int),
                ) + ts_fields_from(x, k as int + 1));
            }
        }
    }
    match tk {
        Err(_) => Err(()),
        Ok(None) => Ok(None),
        Ok(Some((b, j))) => {
            if b.len() == 0 {
                Err(())
            } else {
                Ok(Some((b, j)))
            }
        },
    }
}

/// Reads one optional scalar field of a trade-statistics record at `i`,
/// with the same bookkeeping: an absent field means the value zero.
#[verifier::rlimit(100)]
#[verifier::spinoff_prover]
fn ts_take_uint(data: &[u8], i: usize, k: u64) -> (r: Result<Option<(u64, usize)>, ()>)
    requires
        i <= data@.len(),
        k == 2 || k == 3 || k == 4,
    ensures
        match r {
            Ok(Some((v, j))) => i < j <= data@.len() && data@.subrange(i as int, j as int)
                == field_uint(k, v) && v != 0,
            _ => true,
        },
        forall|x: TradeStatistics|
            data@.subrange(i as int, data@.len() as int) == #[trigger] ts_fields_from(x, k as int)
                ==> (if ts_uint_field(x, k as int) == 0 {
                (r matches Ok(o) && o is None) && data@.subrange(i as int, data@.len() as int)
                    == ts_fields_from(x, k as int + 1)
            } else {
                r matches Ok(o) && o matches Some(p) && p.0 == ts_uint_field(x, k as int)
                    && data@.subrange(p.1 as int, data@.len() as int) == ts_fields_from(
                    x,
                    k as int + 1,
                )
            }),
{
    let tk = take_uint_field(data, i, k);
    proof {
        assert forall|x: TradeStatistics|
            data@.subrange(i as int, data@.len() as int) == #[trigger] ts_fields_from(x, k as int)
            implies (if ts_uint_field(x, k as int) == 0 {
            (tk matches Ok(o) && o is None) && data@.subrange(i as int, data@.len() as int)
                == ts_fields_from(x, k as int + 1)
        } else {
            tk matches Ok(o) && o matches Some(p) && p.0 == ts_uint_field(x, k as int) && p.1 == i
                + ts_chunk(x, k as int).len() && data@.subrange(p.1 as int, data@.len() as int)
                == ts_fields_from(x, k as int + 1)
        }) by {
            if ts_uint_field(x, k as int) == 0 {
                lemma_ts_field_absent(data@, i as int, x, k as int);
                if data@.subrange(i as int, data@.len() as int).len() != 0 {
                    let (t, rest) = choose|t: u64, rest: Seq<u8>|
                        data@.subrange(i as int, data@.len() as int) == #[trigger] (varint_bytes(t)
                            + rest) && 8 * (k as int + 1) <= t;
                }
            } else {
                lemma_ts_field_present(data@, i as int, x, k as int);
                assert(data@.subrange(i as int, data@.len() as int) == field_uint(
                    k,
                    ts_uint_field(x, k as int),
                ) + ts_fields_from(x, k as int + 1));
            }
        }
    }
    match tk {
        Err(_) => Err(()),
        Ok(None) => Ok(None),
        Ok(Some((v, j))) => Ok(Some((v, j))),
    }
}

/// Decodes a trade-statistics record from a complete message body.
/// Exactly the canonical encodings are accepted: decoding the canonical
/// bytes of a value gives that value back, field for field.
#[verifier::rlimit(100)]
#[verifier::spinoff_prover]
pub fn decode_trade_statistics(data: &[u8]) -> (r: Option<TradeStatistics>)
    ensures
        r matches Some(x) ==> trade_statistics_bytes(x) == data@,
        forall|x: TradeStatistics|
            data@ == #[trigger] trade_statistics_bytes(x) ==> (r matches Some(y) && ts_eqv(x, y)),
{
    proof {
        lemma_subrange_all(data@);
        assert forall|x: TradeStatistics|
            data@ == #[trigger] trade_statistics_bytes(x) implies data@.subrange(
            0,
            data@.len() as int,
        ) == ts_fields_from(x, 1) by {
            lemma_ts_fields_cat(x);
        }
    }
    let mut i: usize = 0;
    let currency: Vec<u8>;
    match ts_take_len(data, i, 1) {
        Err(_) => {
            proof {
                assert forall|x: TradeStatistics| data@ != #[trigger] trade_statistics_bytes(x) by {}
            }
            return None;
        },
        Ok(None) => {
            currency = Vec::new();
        },
        Ok(Some((b, j))) => {
            currency = b;
            i = j;
        },
    }
    proof {
        assert(data@.subrange(0, i as int) =~= opt_len(1, currency@));
        assert forall|x: TradeStatistics|
            data@ == #[trigger] trade_statistics_bytes(x) implies x.currency@ == currency@
            && data@.subrange(i as int, data@.len() as int) == ts_fields_from(x, 2) by {
            if x.currency@.len() == 0 {
                assert(x.currency@ =~= currency@);
            }
        }
    }
    let p2: usize = i;
    let trade_price: u64;
    match ts_take_uint(data, i, 2) {
        Err(_) => {
            proof {
                assert forall|x: TradeStatistics| data@ != #[trigger] trade_statistics_bytes(x) by {}
            }
            return None;
        },
        Ok(None) => {
            trade_price = 0;
        },
        Ok(Some((v, j))) => {
            trade_price = v;
            i = j;
        },
    }
    proof {
        lemma_subrange_split(data@, 0, p2 as int, i as int);
        assert(data@.subrange(p2 as int, i as int) =~= opt_uint(2, trade_price));
        assert forall|x: TradeStatistics|
            data@ == #[trigger] trade_statistics_bytes(x) implies x.trade_price == trade_price
            && data@.subrange(i as int, data@.len() as int) == ts_fields_from(x, 3) by {}
    }
    let p3: usize = i;
    let trade_amount: u64;
    match ts_take_uint(data, i, 3) {
        Err(_) => {
            proof {
                assert forall|x: TradeStatistics| data@ != #[trigger] trade_statistics_bytes(x) by {}
            }
            return None;
        },
        Ok(None) => {
            trade_amount = 0;
        },
        Ok(Some((v, j))) => {
            trade_amount = v;
            i = j;
        },
    }
    proof {
        lemma_subrange_split(data@, 0, p3 as int, i as int);
        assert(data@.subrange(p3 as int, i as int) =~= opt_uint(3, trade_amount));
        assert forall|x: TradeStatistics|
            data@ == #[trigger] trade_statistics_bytes(x) implies x.trade_amount == trade_amount
            && data@.subrange(i as int, data@.len() as int) == ts_fields_from(x, 4) by {}
    }
    let p4: usize = i;
    let trade_date: u64;
    match ts_take_uint(data, i, 4) {
        Err(_) => {
            proof {
                assert forall|x: TradeStatistics| data@ != #[trigger] trade_statistics_bytes(x) by {}
            }
            return None;
        },
        Ok(None) => {
            trade_date = 0;
        },
        Ok(Some((v, j))) => {
            trade_date = v;
            i = j;
        },
    }
    proof {
        lemma_subrange_split(data@, 0, p4 as int, i as int);
        assert(data@.subrange(p4 as int, i as int) =~= opt_uint(4, trade_date));
        assert forall|x: TradeStatistics|
            data@ == #[trigger] trade_statistics_bytes(x) implies x.trade_date == trade_date
            && data@.subrange(i as int, data@.len() as int) == ts_fields_from(x, 5) by {}
    }
    let p5: usize = i;
    let signature_pub_key_bytes: Vec<u8>;
    match ts_take_len(data, i, 5) {
        Err(_) => {
            proof {
                assert forall|x: TradeStatistics| data@ != #[trigger] trade_statistics_bytes(x) by {}
            }
            return None;
        },
        Ok(None) => {
            signature_pub_key_bytes = Vec::new();
        },
        Ok(Some((b, j))) => {
            signature_pub_key_bytes = b;
            i = j;
        },
    }
    proof {
        lemma_subrange_split(data@, 0, p5 as int, i as int);
        assert(data@.subrange(p5 as int, i as int) =~= opt_len(5, signature_pub_key_bytes@));
        assert forall|x: TradeStatistics|
            data@ == #[trigger] trade_statistics_bytes(x) implies x.signature_pub_key_bytes@
            == signature_pub_key_bytes@ && i == data@.len() by {
            if x.signature_pub_key_bytes@.len() == 0 {
                assert(x.signature_pub_key_bytes@ =~= signature_pub_key_bytes@);
            }
            assert(data@.subrange(i as int, data@.len() as int).len() == 0);
        }
    }
    if i != data.len() {
        proof {
            assert forall|x: TradeStatistics| data@ != #[trigger] trade_statistics_bytes(x) by {}
        }
        return None;
    }
    proof {
        assert(data@.subrange(0, data@.len() as int) =~= data@);
    }
    Some(TradeStatistics { currency, trade_price, trade_amount, trade_date, signature_pub_key_bytes })
}

#[verifier::rlimit(100)]
#[verifier::spinoff_prover]
pub fn decode_arbitrator(data: &[u8]) -> (r: Option<Arbitrator>)
    ensures
        r matches Some(x) ==> arbitrator_bytes(x) == data@,
        forall|x: Arbitrator|
            data@ == #[trigger] arbitrator_bytes(x) ==> (r matches Some(y) && (opt_node_address_eqv(x.node_address, y.node_address) && opt_pub_key_ring_eqv(x.pub_key_ring, y.pub_key_ring) && x.registration_date == y.registration_date)),
{
    proof {
        lemma_subrange_all(data@);
        assert forall|x: Arbitrator|
            data@ == #[trigger] arbitrator_bytes(x) && x.node_address is Some implies data@ == field_len(1, node_address_bytes(x.node_address.unwrap())) + (opt_pub_key_ring(2, x.pub_key_ring) + opt_uint(3, x.registration_date)) by {
            assert(data@ =~= field_len(1, node_address_bytes(x.node_address.unwrap())) + (opt_pub_key_ring(2, x.pub_key_ring) + opt_uint(3, x.registration_date)));
        }
        assert forall|x: Arbitrator|
            data@ == #[trigger] arbitrator_bytes(x) && x.node_address is None && x.pub_key_ring is Some implies data@ == varint_bytes(18) + (len_delim(pub_key_ring_bytes(x.pub_key_ring.unwrap())) + (opt_uint(3, x.registration_date))) by {
            assert(data@ =~= varint_bytes(18) + (len_delim(pub_key_ring_bytes(x.pub_key_ring.unwrap())) + (opt_uint(3, x.registration_date))));
        }
        assert forall|x: Arbitrator|
            data@ == #[trigger] arbitrator_bytes(x) && x.node_address is None && x.pub_key_ring is None && x.registration_date != 0 implies data@ == varint_bytes(24) + (varint_bytes(x.registration_date) + (Seq::<u8>::empty())) by {
            assert(data@ =~= varint_bytes(24) + (varint_bytes(x.registration_date) + (Seq::<u8>::empty())));
        }
    }
    let mut i: usize = 0;
    let node_address: Option<NodeAddress>;
    match take_len_field(data, i, 1) {
        Err(_) => {
            proof {
                assert forall|x: Arbitrator| data@ != #[trigger] arbitrator_bytes(x) by {}
            }
            return None;
        },
        Ok(None) => {
            node_address = None;
        },
        Ok(Some((b, j))) => {
            match decode_node_address(b.as_slice()) {
                None => {
            proof {
                assert forall|x: Arbitrator| data@ != #[trigger] arbitrator_bytes(x) by {}
            }
            return None;
                },
                Some(v) => {
                    node_address = Some(v);
                    i = j;
                },
            }
        },
    }
    proof {
        assert forall|x: Arbitrator|
            data@ == #[trigger] arbitrator_bytes(x) implies opt_node_address_eqv(x.node_address, node_address) && data@.subrange(
            i as int,
            data@.len() as int,
        ) == opt_pub_key_ring(2, x.pub_key_ring) + opt_uint(3, x.registration_date) by {
            assert(data@.subrange(i as int, data@.len() as int) =~= opt_pub_key_ring(2, x.pub_key_ring) + opt_uint(3, x.registration_date));
        }
        assert forall|x: Arbitrator|
            data@ == #[trigger] arbitrator_bytes(x) && x.pub_key_ring is Some implies data@.subrange(
            i as int,
            data@.len() as int,
        ) == field_len(2, pub_key_ring_bytes(x.pub_key_ring.unwrap())) + (opt_uint(3, x.registration_date)) by {
            assert(data@.subrange(i as int, data@.len() as int) =~= field_len(2, pub_key_ring_bytes(x.pub_key_ring.unwrap())) + (opt_uint(3, x.registration_date)));
        }
        assert forall|x: Arbitrator|
            data@ == #[trigger] arbitrator_bytes(x) && x.pub_key_ring is None && x.registration_date != 0 implies data@.subrange(
            i as int,
            data@.len() as int,
        ) == varint_bytes(24) + (varint_bytes(x.registration_date) + (Seq::<u8>::empty())) by {
            assert(data@.subrange(i as int, data@.len() as int) =~= varint_bytes(24) + (varint_bytes(x.registration_date) + (Seq::<u8>::empty())));
        }
    }
    let p2: usize = i;
    let pub_key_ring: Option<PubKeyRing>;
    match take_len_field(data, i, 2) {
        Err(_) => {
            proof {
                assert forall|x: Arbitrator| data@ != #[trigger] arbitrator_bytes(x) by {}
            }
            return None;
        },
        Ok(None) => {
            pub_key_ring = None;
        },
        Ok(Some((b, j))) => {
            match decode_pub_key_ring(b.as_slice()) {
                None => {
            proof {
                assert forall|x: Arbitrator| data@ != #[trigger] arbitrator_bytes(x) by {}
            }
            return None;
                },
                Some(v) => {
                    pub_key_ring = Some(v);
                    i = j;
                },
            }
        },
    }
    proof {
        assert forall|x: Arbitrator|
            data@ == #[trigger] arbitrator_bytes(x) implies opt_pub_key_ring_eqv(x.pub_key_ring, pub_key_ring) && data@.subrange(
            i as int,
            data@.len() as int,
        ) == opt_uint(3, x.registration_date) by {
            assert(data@.subrange(i as int, data@.len() as int) =~= opt_uint(3, x.registration_date));
        }
        assert forall|x: Arbitrator|
            data@ == #[trigger] arbitrator_bytes(x) && x.registration_date != 0 implies data@.subrange(
            i as int,
            data@.len() as int,
        ) == field_uint(3, x.registration_date) + (Seq::<u8>::empty()) by {
            assert(data@.subrange(i as int, data@.len() as int) =~= field_uint(3, x.registration_date) + (Seq::<u8>::empty()));
        }
    }
    let p3: usize = i;
    let registration_date: u64;
    match take_uint_field(data, i, 3) {
        Err(_) => {
            proof {
                assert forall|x: Arbitrator| data@ != #[trigger] arbitrator_bytes(x) by {}
            }
            return None;
        },
        Ok(None) => {
            registration_date = 0;
        },
        Ok(Some((v, j))) => {
            registration_date = v;
            i = j;
        },
    }
    proof {
        assert forall|x: Arbitrator|
            data@ == #[trigger] arbitrator_bytes(x) implies x.registration_date == registration_date && i == data@.len() by {
            if x.registration_date == 0 {
                assert(data@.subrange(p3 as int, data@.len() as int).len() == 0);
            } else {
                assert((field_uint(3, x.registration_date) + (Seq::<u8>::empty())).len() == (data@.len()
                    - p3));
            }
        }
    }
    if i != data.len() {
        proof {
            assert forall|x: Arbitrator| data@ != #[trigger] arbitrator_bytes(x) by {}
        }
        return None;
    }
    proof {
        assert(data@.subrange(0, data@.len() as int) =~= data@);
    }
    Some(Arbitrator { node_address, pub_key_ring, registration_date })
}

/// Decodes a mediator record from a complete message body.  Exactly the
/// canonical encodings are accepted: decoding the canonical bytes of a
/// value gives that value back, field for field.
pub fn decode_mediator(data: &[u8]) -> (r: Option<Mediator>)
    ensures
        r matches Some(x) ==> mediator_bytes(x) == data@,
        forall|x: Mediator|
            data@ == #[trigger] mediator_bytes(x) ==> (r matches Some(y) && opt_node_address_eqv(
                x.node_address,
                y.node_address,
            ) && opt_pub_key_ring_eqv(x.pub_key_ring, y.pub_key_ring) && x.registration_date
                == y.registration_date),
{
    proof {
        assert forall|x: Mediator|
            data@ == #[trigger] mediator_bytes(x) implies data@ == arbitrator_bytes(
            (Arbitrator {
                node_address: x.node_address,
                pub_key_ring: x.pub_key_ring,
                registration_date: x.registration_date,
            }),
        ) by {}
    }
    match decode_arbitrator(data) {
        None => None,
        Some(a) => Some(
            Mediator {
                node_address: a.node_address,
                pub_key_ring: a.pub_key_ring,
                registration_date: a.registration_date,
            },
        ),
    }
}

/// Decodes a refund-agent record from a complete message body.  Exactly
/// the canonical encodings are accepted: decoding the canonical bytes of
/// a value gives that value back, field for field.
pub fn decode_refund_agent(data: &[u8]) -> (r: Option<RefundAgent>)
    ensures
        r matches Some(x) ==> refund_agent_bytes(x) == data@,
        forall|x: RefundAgent|
            data@ == #[trigger] refund_agent_bytes(x) ==> (r matches Some(y)
                && opt_node_address_eqv(x.node_address, y.node_address) && opt_pub_key_ring_eqv(
                x.pub_key_ring,
                y.pub_key_ring,
            ) && x.registration_date == y.registration_date),
{
    proof {
        assert forall|x: RefundAgent|
            data@ == #[trigger] refund_agent_bytes(x) implies data@ == arbitrator_bytes(
            (Arbitrator {
                node_address: x.node_address,
                pub_key_ring: x.pub_key_ring,
                registration_date: x.registration_date,
            }),
        ) by {}
    }
    match decode_arbitrator(data) {
        None => None,
        Some(a) => Some(
            RefundAgent {
                node_address: a.node_address,
                pub_key_ring: a.pub_key_ring,
                registration_date: a.registration_date,
            },
        ),
    }
}

/// Decodes a filter from a complete message body.  Exactly the canonical
/// encodings are accepted: decoding the canonical bytes of a filter gives
/// that filter back, field for field and entry for entry.
#[verifier::rlimit(100)]
#[verifier::spinoff_prover]
pub fn decode_filter(data: &[u8]) -> (r: Option<Filter>)
    ensures
        r matches Some(x) ==> filter_bytes(x) == data@,
        forall|x: Filter|
            data@ == #[trigger] filter_bytes(x) ==> (r matches Some(y) && y.signature_as_base64@
                == x.signature_as_base64@ && y.owner_pub_key_bytes@ == x.owner_pub_key_bytes@
                && y.banned_offer_ids@.len() == x.banned_offer_ids@.len() && (forall|t: int|
                0 <= t < y.banned_offer_ids@.len() ==> (#[trigger] y.banned_offer_ids@[t])@
                    == x.banned_offer_ids@[t]@)),
{
    proof {
        lemma_subrange_all(data@);
        assert forall|x: Filter|
            data@ == #[trigger] filter_bytes(x) && x.signature_as_base64@.len() != 0 implies data@
            == field_len(1, x.signature_as_base64@) + (opt_len(2, x.owner_pub_key_bytes@)
            + rep_len(3, x.banned_offer_ids@)) by {
            assert(data@ =~= field_len(1, x.signature_as_base64@) + (opt_len(
                2,
                x.owner_pub_key_bytes@,
            ) + rep_len(3, x.banned_offer_ids@)));
        }
        assert forall|x: Filter|
            data@ == #[trigger] filter_bytes(x) && x.signature_as_base64@.len() == 0
            && x.owner_pub_key_bytes@.len() != 0 implies data@ == varint_bytes(18) + (len_delim(
            x.owner_pub_key_bytes@,
        ) + rep_len(3, x.banned_offer_ids@)) by {
            assert(data@ =~= varint_bytes(18) + (len_delim(x.owner_pub_key_bytes@) + rep_len(
                3,
                x.banned_offer_ids@,
            )));
        }
        assert forall|x: Filter|
            data@ == #[trigger] filter_bytes(x) && x.signature_as_base64@.len() == 0
            && x.owner_pub_key_bytes@.len() == 0 && x.banned_offer_ids@.len() != 0 implies data@
            == varint_bytes(26) + (len_delim(x.banned_offer_ids@[0]@) + rep_len(
            3,
            x.banned_offer_ids@.drop_first(),
        )) by {
            assert(data@ =~= varint_bytes(26) + (len_delim(x.banned_offer_ids@[0]@) + rep_len(
                3,
                x.banned_offer_ids@.drop_first(),
            )));
        }
    }
    let mut i: usize = 0;
    let signature_as_base64: Vec<u8>;
    match take_len_field(data, i, 1) {
        Err(_) => {
            proof {
                assert forall|x: Filter| data@ != #[trigger] filter_bytes(x) by {}
            }
            return None;
        },
        Ok(None) => {
            signature_as_base64 = Vec::new();
        },
        Ok(Some((b, j))) => {
            if b.len() == 0 {
                proof {
                    assert forall|x: Filter| data@ != #[trigger] filter_bytes(x) by {}
                }
                return None;
            }
            signature_as_base64 = b;
            i = j;
        },
    }
    proof {
        assert(data@.subrange(0, i as int) =~= opt_len(1, signature_as_base64@));
        assert forall|x: Filter|
            data@ == #[trigger] filter_bytes(x) implies x.signature_as_base64@
            == signature_as_base64@ && data@.subrange(i as int, data@.len() as int) == opt_len(
            2,
            x.owner_pub_key_bytes@,
        ) + rep_len(3, x.banned_offer_ids@) by {
            assert(data@.subrange(i as int, data@.len() as int) =~= opt_len(
                2,
                x.owner_pub_key_bytes@,
            ) + rep_len(3, x.banned_offer_ids@));
        }
        assert forall|x: Filter|
            data@ == #[trigger] filter_bytes(x) && x.owner_pub_key_bytes@.len() != 0 implies data@
            .subrange(i as int, data@.len() as int) == field_len(2, x.owner_pub_key_bytes@) + (
        rep_len(3, x.banned_offer_ids@)) by {
            assert(data@.subrange(i as int, data@.len() as int) =~= field_len(
                2,
                x.owner_pub_key_bytes@,
            ) + (rep_len(3, x.banned_offer_ids@)));
        }
        assert forall|x: Filter|
            data@ == #[trigger] filter_bytes(x) && x.owner_pub_key_bytes@.len() == 0
            && x.banned_offer_ids@.len() != 0 implies data@.subrange(
            i as int,
            data@.len() as int,
        ) == varint_bytes(26) + (len_delim(x.banned_offer_ids@[0]@) + rep_len(
            3,
            x.banned_offer_ids@.drop_first(),
        )) by {
            assert(data@.subrange(i as int, data@.len() as int) =~= varint_bytes(26) + (len_delim(
                x.banned_offer_ids@[0]@,
            ) + rep_len(3, x.banned_offer_ids@.drop_first())));
        }
    }
    let p2: usize = i;
    let owner_pub_key_bytes: Vec<u8>;
    match take_len_field(data, i, 2) {
        Err(_) => {
            proof {
                assert forall|x: Filter| data@ != #[trigger] filter_bytes(x) by {}
            }
            return None;
        },
        Ok(None) => {
            owner_pub_key_bytes = Vec::new();
        },
        Ok(Some((b, j))) => {
            if b.len() == 0 {
                proof {
                    assert forall|x: Filter| data@ != #[trigger] filter_bytes(x) by {}
                }
                return None;
            }
            owner_pub_key_bytes = b;
            i = j;
        },
    }
    proof {
        lemma_subrange_split(data@, 0, p2 as int, i as int);
        assert(data@.subrange(p2 as int, i as int) =~= opt_len(2, owner_pub_key_bytes@));
        assert forall|x: Filter|
            data@ == #[trigger] filter_bytes(x) implies x.owner_pub_key_bytes@
            == owner_pub_key_bytes@ && data@.subrange(i as int, data@.len() as int) == rep_len(
            3,
            x.banned_offer_ids@,
        ) by {
            assert(data@.subrange(i as int, data@.len() as int) =~= rep_len(
                3,
                x.banned_offer_ids@,
            ));
        }
    }
    let p3: usize = i;
    let mut banned_offer_ids: Vec<Vec<u8>> = Vec::new();
    proof {
        lemma_subrange_empty(data@, i as int);
        assert(data@.subrange(p3 as int, i as int) == rep_len(3, banned_offer_ids@));
        assert forall|x: Filter|
            data@ == #[trigger] filter_bytes(x) implies x.banned_offer_ids@.skip(
            banned_offer_ids@.len() as int,
        ) =~= x.banned_offer_ids@ by {}
    }
    loop
        invariant
            p3 <= i <= data@.len(),
            data@.subrange(p3 as int, i as int) == rep_len(3, banned_offer_ids@),
            forall|x: Filter|
                data@ == #[trigger] filter_bytes(x) ==> banned_offer_ids@.len()
                    <= x.banned_offer_ids@.len() && (forall|t: int|
                    0 <= t < banned_offer_ids@.len() ==> (#[trigger] banned_offer_ids@[t])@
                        == x.banned_offer_ids@[t]@) && data@.subrange(i as int, data@.len() as int)
                    == rep_len(3, x.banned_offer_ids@.skip(banned_offer_ids@.len() as int)),
        ensures
            forall|x: Filter|
                data@ == #[trigger] filter_bytes(x) ==> banned_offer_ids@.len()
                    == x.banned_offer_ids@.len() && (forall|t: int|
                    0 <= t < banned_offer_ids@.len() ==> (#[trigger] banned_offer_ids@[t])@
                        == x.banned_offer_ids@[t]@) && i == data@.len(),
        decreases data@.len() - i,
    {
        proof {
            assert forall|x: Filter|
                data@ == #[trigger] filter_bytes(x) && banned_offer_ids@.len()
                < x.banned_offer_ids@.len() implies data@.subrange(i as int, data@.len() as int)
                == field_len(3, x.banned_offer_ids@[banned_offer_ids@.len() as int]@) + (rep_len(
                3,
                x.banned_offer_ids@.skip(banned_offer_ids@.len() as int + 1),
            )) by {
                let l = x.banned_offer_ids@.skip(banned_offer_ids@.len() as int);
                assert(l[0] == x.banned_offer_ids@[banned_offer_ids@.len() as int]);
                assert(l.drop_first() =~= x.banned_offer_ids@.skip(banned_offer_ids@.len() as int + 1));
                assert(data@.subrange(i as int, data@.len() as int) =~= field_len(3, l[0]@) + (
                rep_len(3, l.drop_first())));
            }
        }
        match take_len_field(data, i, 3) {
            Err(_) => {
                proof {
                    assert forall|x: Filter| data@ != #[trigger] filter_bytes(x) by {
                        if data@ == filter_bytes(x) {
                            if x.banned_offer_ids@.len() == banned_offer_ids@.len() {
                                assert(x.banned_offer_ids@.skip(banned_offer_ids@.len() as int)
                                    =~= Seq::<Vec<u8>>::empty());
                                assert(data@.subrange(i as int, data@.len() as int).len() == 0);
                            }
                        }
                    }
                }
                return None;
            },
            Ok(None) => {
                proof {
                    assert forall|x: Filter|
                        data@ == #[trigger] filter_bytes(x) implies x.banned_offer_ids@.len()
                        == banned_offer_ids@.len() && i == data@.len() by {
                        if x.banned_offer_ids@.len() == banned_offer_ids@.len() {
                            assert(x.banned_offer_ids@.skip(banned_offer_ids@.len() as int)
                                =~= Seq::<Vec<u8>>::empty());
                        }
                        assert(data@.subrange(i as int, data@.len() as int).len() == 0);
                    }
                }
                break ;
            },
            Ok(Some((b, j))) => {
                proof {
                    lemma_subrange_split(data@, p3 as int, i as int, j as int);
                    lemma_rep_len_push(3, banned_offer_ids@, b);
                    assert forall|x: Filter|
                        data@ == #[trigger] filter_bytes(x) implies banned_offer_ids@.len()
                        < x.banned_offer_ids@.len() && b@ == x.banned_offer_ids@[
                        banned_offer_ids@.len() as int]@ && data@.subrange(
                        j as int,
                        data@.len() as int,
                    ) == rep_len(3, x.banned_offer_ids@.skip(banned_offer_ids@.len() as int + 1)) by {
                        if x.banned_offer_ids@.len() == banned_offer_ids@.len() {
                            assert(x.banned_offer_ids@.skip(banned_offer_ids@.len() as int)
                                =~= Seq::<Vec<u8>>::empty());
                            assert(data@.subrange(i as int, data@.len() as int).len() == 0);
                        }
                        let m = banned_offer_ids@.len() as int;
                        let fl = field_len(3, x.banned_offer_ids@[m]@);
                        assert(data@.subrange(i as int, data@.len() as int) == fl + (rep_len(
                            3,
                            x.banned_offer_ids@.skip(m + 1),
                        )));
                        assert(j == i + fl.len());
                        assert(data@.subrange(j as int, data@.len() as int) =~= data@.subrange(
                            i as int,
                            data@.len() as int,
                        ).skip(j - i));
                        assert((fl + (rep_len(3, x.banned_offer_ids@.skip(m + 1)))).skip(
                            fl.len() as int,
                        ) =~= rep_len(3, x.banned_offer_ids@.skip(m + 1)));
                    }
                }
                banned_offer_ids.push(b);
                i = j;
                proof {
                    assert forall|x: Filter|
                        data@ == #[trigger] filter_bytes(x) implies (forall|t: int|
                        0 <= t < banned_offer_ids@.len() ==> (#[trigger] banned_offer_ids@[t])@
                            == x.banned_offer_ids@[t]@) by {}
                }
            },
        }
    }
    proof {
        lemma_subrange_split(data@, 0, p3 as int, i as int);
    }
    if i != data.len() {
        proof {
            assert forall|x: Filter| data@ != #[trigger] filter_bytes(x) by {}
        }
        return None;
    }
    proof {
        assert(data@.subrange(0, data@.len() as int) =~= data@);
    }
    Some(Filter { signature_as_base64, owner_pub_key_bytes, banned_offer_ids })
}

/// The byte-string field of an offer payload under field number `k`.
pub open spec fn offer_len_field(o: OfferPayload, k: int) -> Seq<u8> {
    if k == 1 { o.id@ }
    else if k == 11 { o.base_currency_code@ }
    else if k == 12 { o.counter_currency_code@ }
    else if k == 15 { o.payment_method_id@ }
    else if k == 16 { o.maker_payment_account_id@ }
    else if k == 17 { o.offer_fee_payment_tx_id@ }
    else if k == 18 { o.country_code@ }
    else if k == 20 { o.bank_id@ }
    else { o.version_nr@ }
}

/// The scalar field of an offer payload under field number `k`, the
/// booleans and the direction as their wire numbers.
pub open spec fn offer_uint_field(o: OfferPayload, k: int) -> u64 {
    if k == 2 { o.date }
    else if k == 5 { direction_num(o.direction) }
    else if k == 6 { o.price }
    else if k == 8 { if o.use_market_based_price { 1 } else { 0 } }
    else if k == 9 { o.amount }
    else if k == 10 { o.min_amount }
    else if k == 23 { o.block_height_at_offer_creation }
    else if k == 24 { o.tx_fee }
    else if k == 25 { o.maker_fee }
    else if k == 26 { if o.is_currency_for_maker_fee_btc { 1 } else { 0 } }
    else if k == 27 { o.buyer_security_deposit }
    else if k == 28 { o.seller_security_deposit }
    else if k == 29 { o.max_trade_limit }
    else if k == 30 { o.max_trade_period }
    else { o.protocol_version as u64 }
}

/// The repeated node-address field of an offer payload under field `k`.
pub open spec fn offer_addr_list(o: OfferPayload, k: int) -> Seq<NodeAddress> {
    if k == 13 { o.arbitrator_node_addresses@ } else { o.mediator_node_addresses@ }
}

/// The repeated byte-string field of an offer payload under field `k`.
pub open spec fn offer_str_list(o: OfferPayload, k: int) -> Seq<Vec<u8>> {
    if k == 19 { o.accepted_country_codes@ } else { o.accepted_bank_ids@ }
}

/// Reads one optional byte-string field of an offer payload at `i`,
/// carrying the canonical-suffix bookkeeping for every offer the input
/// could encode from field `k` on.
#[verifier::rlimit(100)]
#[verifier::spinoff_prover]
fn offer_take_len(data: &[u8], i: usize, k: u64) -> (r: Result<Option<(Vec<u8>, usize)>, ()>)
    requires
        i <= data@.len(),
        k == 1 || k == 11 || k == 12 || k == 15 || k == 16 || k == 17 || k == 18 || k == 20 || k
            == 22,
    ensures
        match r {
            Ok(Some((b, j))) => i < j <= data@.len() && data@.subrange(i as int, j as int)
                == field_len(k, b@) && b@.len() != 0,
            _ => true,
        },
        forall|x: OfferPayload|
            data@.subrange(i as int, data@.len() as int) == #[trigger] offer_fields_from(
                x,
                k as int,
            ) ==> (if offer_len_field(x, k as int).len() == 0 {
                (r matches Ok(o) && o is None) && data@.subrange(i as int, data@.len() as int)
                    == offer_fields_from(x, k as int + 1)
            } else {
                r matches Ok(o) && o matches Some(p) && p.0@ == offer_len_field(x, k as int)
                    && data@.subrange(p.1 as int, data@.len() as int) == offer_fields_from(
                    x,
                    k as int + 1,
                )
            }),
{
    let tk = take_len_field(data, i, k);
    proof {
        assert forall|x: OfferPayload|
            data@.subrange(i as int, data@.len() as int) == #[trigger] offer_fields_from(
                x,
                k as int,
            ) implies (if offer_len_field(x, k as int).len() == 0 {
            (tk matches Ok(o) && o is None) && data@.subrange(i as int, data@.len() as int)
                == offer_fields_from(x, k as int + 1)
        } else {
            tk matches Ok(o) && o matches Some(p) && p.0@ == offer_len_field(x, k as int) && p.1
                == i + offer_chunk(x, k as int).len() && data@.subrange(
                p.1 as int,
                data@.len() as int,
            ) == offer_fields_from(x, k as int + 1)
        }) by {
            assert(offer_chunk(x, k as int) == opt_len(k, offer_len_field(x, k as int)));
            if offer_len_field(x, k as int).len() == 0 {
                lemma_offer_field_absent(data@, i as int, x, k as int);
                if data@.subrange(i as int, data@.len() as int).len() != 0 {
                    let (t, rest) = choose|t: u64, rest: Seq<u8>|
                        data@.subrange(i as int, data@.len() as int) == #[trigger] (varint_bytes(t)
                            + rest) && 8 * (k as int + 1) <= t;
                }
            } else {
                lemma_offer_field_present(data@, i as int, x, k as int);
                assert(data@.subrange(i as int, data@.len() as int) == field_len(
                    k,
                    offer_len_field(x, k as int),
                ) + offer_fields_from(x, k as int + 1));
            }
        }
    }
    match tk {
        Err(_) => Err(()),
        Ok(None) => Ok(None),
        Ok(Some((b, j))) => {
            if b.len() == 0 {
                Err(())
            } else {
                Ok(Some((b, j)))
            }
        },
    }
}

/// Reads one optional scalar field of an offer payload at `i`, with the
/// same bookkeeping: an absent field means the value zero.
#[verifier::rlimit(100)]
#[verifier::spinoff_prover]
fn offer_take_uint(data: &[u8], i: usize, k: u64) -> (r: Result<Option<(u64, usize)>, ()>)
    requires
        i <= data@.len(),
        k == 2 || k == 5 || k == 6 || k == 8 || k == 9 || k == 10 || (23 <= k && k <= 30) || k
            == 38,
    ensures
        match r {
            Ok(Some((v, j))) => i < j <= data@.len() && data@.subrange(i as int, j as int)
                == field_uint(k, v) && v != 0,
            _ => true,
        },
        forall|x: OfferPayload|
            data@.subrange(i as int, data@.len() as int) == #[trigger] offer_fields_from(
                x,
                k as int,
            ) ==> (if offer_uint_field(x, k as int) == 0 {
                (r matches Ok(o) && o is None) && data@.subrange(i as int, data@.len() as int)
                    == offer_fields_from(x, k as int + 1)
            } else {
                r matches Ok(o) && o matches Some(p) && p.0 == offer_uint_field(x, k as int)
                    && data@.subrange(p.1 as int, data@.len() as int) == offer_fields_from(
                    x,
                    k as int + 1,
                )
            }),
{
    let tk = take_uint_field(data, i, k);
    proof {
        assert forall|x: OfferPayload|
            data@.subrange(i as int, data@.len() as int) == #[trigger] offer_fields_from(
                x,
                k as int,
            ) implies (if offer_uint_field(x, k as int) == 0 {
            (tk matches Ok(o) && o is None) && data@.subrange(i as int, data@.len() as int)
                == offer_fields_from(x, k as int + 1)
        } else {
            tk matches Ok(o) && o matches Some(p) && p.0 == offer_uint_field(x, k as int) && p.1
                == i + offer_chunk(x, k as int).len() && data@.subrange(
                p.1 as int,
                data@.len() as int,
            ) == offer_fields_from(x, k as int + 1)
        }) by {
            assert(offer_chunk(x, k as int) == opt_uint(k, offer_uint_field(x, k as int)));
            if offer_uint_field(x, k as int) == 0 {
                lemma_offer_field_absent(data@, i as int, x, k as int);
                if data@.subrange(i as int, data@.len() as int).len() != 0 {
                    let (t, rest) = choose|t: u64, rest: Seq<u8>|
                        data@.subrange(i as int, data@.len() as int) == #[trigger] (varint_bytes(t)
                            + rest) && 8 * (k as int + 1) <= t;
                }
            } else {
                lemma_offer_field_present(data@, i as int, x, k as int);
                assert(data@.subrange(i as int, data@.len() as int) == field_uint(
                    k,
                    offer_uint_field(x, k as int),
                ) + offer_fields_from(x, k as int + 1));
            }
        }
    }
    match tk {
        Err(_) => Err(()),
        Ok(None) => Ok(None),
        Ok(Some((v, j))) => Ok(Some((v, j))),
    }
}

/// Reads the optional fixed 64-bit margin field of an offer payload at
/// `i`, with the same bookkeeping.
#[verifier::rlimit(100)]
#[verifier::spinoff_prover]
fn offer_take_margin(data: &[u8], i: usize) -> (r: Result<Option<(u64, usize)>, ()>)
    requires
        i <= data@.len(),
    ensures
        match r {
            Ok(Some((v, j))) => i < j <= data@.len() && data@.subrange(i as int, j as int)
                == field_fix64(7, v) && v != 0,
            _ => true,
        },
        forall|x: OfferPayload|
            data@.subrange(i as int, data@.len() as int) == #[trigger] offer_fields_from(x, 7)
                ==> (if x.market_price_margin_bits == 0 {
                (r matches Ok(o) && o is None) && data@.subrange(i as int, data@.len() as int)
                    == offer_fields_from(x, 8)
            } else {
                r matches Ok(o) && o matches Some(p) && p.0 == x.market_price_margin_bits
                    && data@.subrange(p.1 as int, data@.len() as int) == offer_fields_from(x, 8)
            }),
{
    let tk = take_fix64_field(data, i, 7);
    proof {
        assert forall|x: OfferPayload|
            data@.subrange(i as int, data@.len() as int) == #[trigger] offer_fields_from(x, 7)
            implies (if x.market_price_margin_bits == 0 {
            (tk matches Ok(o) && o is None) && data@.subrange(i as int, data@.len() as int)
                == offer_fields_from(x, 8)
        } else {
            tk matches Ok(o) && o matches Some(p) && p.0 == x.market_price_margin_bits && p.1 == i
                + offer_chunk(x, 7).len() && data@.subrange(p.1 as int, data@.len() as int)
                == offer_fields_from(x, 8)
        }) by {
            if x.market_price_margin_bits == 0 {
                lemma_offer_field_absent(data@, i as int, x, 7);
                if data@.subrange(i as int, data@.len() as int).len() != 0 {
                    let (t, rest) = choose|t: u64, rest: Seq<u8>|
                        data@.subrange(i as int, data@.len() as int) == #[trigger] (varint_bytes(t)
                            + rest) && 8 * 8 <= t;
                }
            } else {
                lemma_offer_field_present(data@, i as int, x, 7);
                assert(data@.subrange(i as int, data@.len() as int) == field_fix64(
                    7,
                    x.market_price_margin_bits,
                ) + offer_fields_from(x, 8));
            }
        }
    }
    match tk {
        Err(_) => Err(()),
        Ok(None) => Ok(None),
        Ok(Some((v, j))) => Ok(Some((v, j))),
    }
}

/// Reads the optional embedded maker address of an offer payload at `i`,
/// with the same bookkeeping.
#[verifier::rlimit(100)]
#[verifier::spinoff_prover]
fn offer_take_addr(data: &[u8], i: usize) -> (r: Result<Option<(NodeAddress, usize)>, ()>)
    requires
        i <= data@.len(),
    ensures
        match r {
            Ok(Some((a, j))) => i < j <= data@.len() && data@.subrange(i as int, j as int)
                == field_len(3, node_address_bytes(a)),
            _ => true,
        },
        forall|x: OfferPayload|
            data@.subrange(i as int, data@.len() as int) == #[trigger] offer_fields_from(x, 3)
                ==> (if x.owner_node_address is None {
                (r matches Ok(o) && o is None) && data@.subrange(i as int, data@.len() as int)
                    == offer_fields_from(x, 4)
            } else {
                r matches Ok(o) && o matches Some(p) && p.0.host_name@
                    == x.owner_node_address.unwrap().host_name@ && p.0.port
                    == x.owner_node_address.unwrap().port && data@.subrange(
                    p.1 as int,
                    data@.len() as int,
                ) == offer_fields_from(x, 4)
            }),
{
    let tk = take_len_field(data, i, 3);
    proof {
        assert forall|x: OfferPayload|
            data@.subrange(i as int, data@.len() as int) == #[trigger] offer_fields_from(x, 3)
            implies (if x.owner_node_address is None {
            (tk matches Ok(o) && o is None) && data@.subrange(i as int, data@.len() as int)
                == offer_fields_from(x, 4)
        } else {
            tk matches Ok(o) && o matches Some(p) && p.0@ == node_address_bytes(
                x.owner_node_address.unwrap(),
            ) && p.1 == i + offer_chunk(x, 3).len() && data@.subrange(
                p.1 as int,
                data@.len() as int,
            ) == offer_fields_from(x, 4)
        }) by {
            if x.owner_node_address is None {
                lemma_offer_field_absent(data@, i as int, x, 3);
                if data@.subrange(i as int, data@.len() as int).len() != 0 {
                    let (t, rest) = choose|t: u64, rest: Seq<u8>|
                        data@.subrange(i as int, data@.len() as int) == #[trigger] (varint_bytes(t)
                            + rest) && 8 * 4 <= t;
                }
            } else {
                lemma_offer_field_present(data@, i as int, x, 3);
                assert(data@.subrange(i as int, data@.len() as int) == field_len(
                    3,
                    node_address_bytes(x.owner_node_address.unwrap()),
                ) + offer_fields_from(x, 4));
            }
        }
    }
    match tk {
        Err(_) => Err(()),
        Ok(None) => Ok(None),
        Ok(Some((b, j))) => {
            match decode_node_address(b.as_slice()) {
                None => Err(()),
                Some(a) => Ok(Some((a, j))),
            }
        },
    }
}

/// Reads the optional embedded key ring of an offer payload at `i`, with
/// the same bookkeeping.
#[verifier::rlimit(100)]
#[verifier::spinoff_prover]
fn offer_take_ring(data: &[u8], i: usize) -> (r: Result<Option<(PubKeyRing, usize)>, ()>)
    requires
        i <= data@.len(),
    ensures
        match r {
            Ok(Some((g, j))) => i < j <= data@.len() && data@.subrange(i as int, j as int)
                == field_len(4, pub_key_ring_bytes(g)),
            _ => true,
        },
        forall|x: OfferPayload|
            data@.subrange(i as int, data@.len() as int) == #[trigger] offer_fields_from(x, 4)
                ==> (if x.pub_key_ring is None {
                (r matches Ok(o) && o is None) && data@.subrange(i as int, data@.len() as int)
                    == offer_fields_from(x, 5)
            } else {
                r matches Ok(o) && o matches Some(p) && p.0.signature_pub_key_bytes@
                    == x.pub_key_ring.unwrap().signature_pub_key_bytes@
                    && p.0.encryption_pub_key_bytes@
                    == x.pub_key_ring.unwrap().encryption_pub_key_bytes@ && data@.subrange(
                    p.1 as int,
                    data@.len() as int,
                ) == offer_fields_from(x, 5)
            }),
{
    let tk = take_len_field(data, i, 4);
    proof {
        assert forall|x: OfferPayload|
            data@.subrange(i as int, data@.len() as int) == #[trigger] offer_fields_from(x, 4)
            implies (if x.pub_key_ring is None {
            (tk matches Ok(o) && o is None) && data@.subrange(i as int, data@.len() as int)
                == offer_fields_from(x, 5)
        } else {
            tk matches Ok(o) && o matches Some(p) && p.0@ == pub_key_ring_bytes(
                x.pub_key_ring.unwrap(),
            ) && p.1 == i + offer_chunk(x, 4).len() && data@.subrange(
                p.1 as int,
                data@.len() as int,
            ) == offer_fields_from(x, 5)
        }) by {
            if x.pub_key_ring is None {
                lemma_offer_field_absent(data@, i as int, x, 4);
                if data@.subrange(i as int, data@.len() as int).len() != 0 {
                    let (t, rest) = choose|t: u64, rest: Seq<u8>|
                        data@.subrange(i as int, data@.len() as int) == #[trigger] (varint_bytes(t)
                            + rest) && 8 * 5 <= t;
                }
            } else {
                lemma_offer_field_present(data@, i as int, x, 4);
                assert(data@.subrange(i as int, data@.len() as int) == field_len(
                    4,
                    pub_key_ring_bytes(x.pub_key_ring.unwrap()),
                ) + offer_fields_from(x, 5));
            }
        }
    }
    match tk {
        Err(_) => Err(()),
        Ok(None) => Ok(None),
        Ok(Some((b, j))) => {
            match decode_pub_key_ring(b.as_slice()) {
                None => Err(()),
                Some(g) => Ok(Some((g, j))),
            }
        },
    }
}

/// Reads one repeated node-address field of an offer payload at `i`,
/// element by element, with the same bookkeeping for the whole list.
#[verifier::rlimit(100)]
#[verifier::spinoff_prover]
fn offer_take_addr_list(data: &[u8], i0: usize, k: u64) -> (r: Option<(Vec<NodeAddress>, usize)>)
    requires
        i0 <= data@.len(),
        k == 13 || k == 14,
    ensures
        match r {
            Some((v, j)) => i0 <= j <= data@.len() && data@.subrange(i0 as int, j as int)
                == rep_node_address(k, v@),
            None => true,
        },
        forall|x: OfferPayload|
            data@.subrange(i0 as int, data@.len() as int) == #[trigger] offer_fields_from(
                x,
                k as int,
            ) ==> (r matches Some(p) && p.0@.len() == offer_addr_list(x, k as int).len() && (
            forall|t: int|
                0 <= t < p.0@.len() ==> (#[trigger] p.0@[t]).host_name@ == offer_addr_list(
                    x,
                    k as int,
                )[t].host_name@ && p.0@[t].port == offer_addr_list(x, k as int)[t].port)
                && data@.subrange(p.1 as int, data@.len() as int) == offer_fields_from(
                x,
                k as int + 1,
            )),
{
    let mut i: usize = i0;
    let mut acc: Vec<NodeAddress> = Vec::new();
    proof {
        lemma_subrange_empty(data@, i as int);
        assert forall|x: OfferPayload|
            data@.subrange(i0 as int, data@.len() as int) == #[trigger] offer_fields_from(
                x,
                k as int,
            ) implies data@.subrange(i as int, data@.len() as int) == rep_node_address(
            k,
            offer_addr_list(x, k as int).skip(acc@.len() as int),
        ) + offer_fields_from(x, k as int + 1) by {
            assert(offer_addr_list(x, k as int).skip(0) =~= offer_addr_list(x, k as int));
        }
    }
    loop
        invariant
            i0 <= i <= data@.len(),
            k == 13 || k == 14,
            data@.subrange(i0 as int, i as int) == rep_node_address(k, acc@),
            forall|x: OfferPayload|
                data@.subrange(i0 as int, data@.len() as int) == #[trigger] offer_fields_from(
                    x,
                    k as int,
                ) ==> acc@.len() <= offer_addr_list(x, k as int).len() && (forall|t: int|
                    0 <= t < acc@.len() ==> (#[trigger] acc@[t]).host_name@ == offer_addr_list(
                        x,
                        k as int,
                    )[t].host_name@ && acc@[t].port == offer_addr_list(x, k as int)[t].port)
                    && data@.subrange(i as int, data@.len() as int) == rep_node_address(
                    k,
                    offer_addr_list(x, k as int).skip(acc@.len() as int),
                ) + offer_fields_from(x, k as int + 1),
        ensures
            i0 <= i <= data@.len(),
            data@.subrange(i0 as int, i as int) == rep_node_address(k, acc@),
            forall|x: OfferPayload|
                data@.subrange(i0 as int, data@.len() as int) == #[trigger] offer_fields_from(
                    x,
                    k as int,
                ) ==> acc@.len() == offer_addr_list(x, k as int).len() && (forall|t: int|
                    0 <= t < acc@.len() ==> (#[trigger] acc@[t]).host_name@ == offer_addr_list(
                        x,
                        k as int,
                    )[t].host_name@ && acc@[t].port == offer_addr_list(x, k as int)[t].port)
                    && data@.subrange(i as int, data@.len() as int) == offer_fields_from(
                    x,
                    k as int + 1,
                ),
        decreases data@.len() - i,
    {
        let tk = take_len_field(data, i, k);
        proof {
            assert forall|x: OfferPayload|
                data@.subrange(i0 as int, data@.len() as int) == #[trigger] offer_fields_from(
                    x,
                    k as int,
                ) implies (if acc@.len() == offer_addr_list(x, k as int).len() {
                (tk matches Ok(o) && o is None) && data@.subrange(i as int, data@.len() as int)
                    == offer_fields_from(x, k as int + 1)
            } else {
                tk matches Ok(o) && o matches Some(p) && p.0@ == node_address_bytes(
                    offer_addr_list(x, k as int)[acc@.len() as int],
                ) && data@.subrange(p.1 as int, data@.len() as int) == rep_node_address(
                    k,
                    offer_addr_list(x, k as int).skip(acc@.len() as int + 1),
                ) + offer_fields_from(x, k as int + 1)
            }) by {
                let n = acc@.len() as int;
                let full = offer_addr_list(x, k as int);
                let l = full.skip(n);
                if n == full.len() {
                    assert(l =~= Seq::<NodeAddress>::empty());
                    assert(data@.subrange(i as int, data@.len() as int) =~= offer_fields_from(
                        x,
                        k as int + 1,
                    ));
                    lemma_offer_fields_shape(x, k as int + 1);
                    if offer_fields_from(x, k as int + 1).len() != 0 {
                        let (t, rest) = choose|t: u64, rest: Seq<u8>|
                            offer_fields_from(x, k as int + 1) == #[trigger] (varint_bytes(t)
                                + rest) && 8 * (k as int + 1) <= t;
                        assert(data@.subrange(i as int, data@.len() as int) == varint_bytes(t)
                            + rest);
                    } else {
                        assert(data@.subrange(i as int, data@.len() as int).len() == 0);
                    }
                } else {
                    assert(l[0] == full[n]);
                    assert(l.drop_first() =~= full.skip(n + 1));
                    let fl = field_len(k, node_address_bytes(full[n]));
                    lemma_cat_assoc(
                        fl,
                        rep_node_address(k, full.skip(n + 1)),
                        offer_fields_from(x, k as int + 1),
                    );
                    assert(data@.subrange(i as int, data@.len() as int) == fl + (rep_node_address(
                        k,
                        full.skip(n + 1),
                    ) + offer_fields_from(x, k as int + 1)));
                    assert(data@.subrange(i + fl.len(), data@.len() as int) =~= data@.subrange(
                        i as int,
                        data@.len() as int,
                    ).skip(fl.len() as int));
                    assert((fl + (rep_node_address(k, full.skip(n + 1)) + offer_fields_from(
                        x,
                        k as int + 1,
                    ))).skip(fl.len() as int) =~= rep_node_address(k, full.skip(n + 1))
                        + offer_fields_from(x, k as int + 1));
                }
            }
        }
        match tk {
            Err(_) => {
                return None;
            },
            Ok(None) => {
                break ;
            },
            Ok(Some((b, j))) => {
                match decode_node_address(b.as_slice()) {
                    None => {
                        return None;
                    },
                    Some(a) => {
                        proof {
                            lemma_subrange_split(data@, i0 as int, i as int, j as int);
                            lemma_rep_node_address_push(k, acc@, a);
                        }
                        let ghost acc0 = acc@;
                        acc.push(a);
                        i = j;
                        proof {
                            assert forall|x: OfferPayload|
                                data@.subrange(i0 as int, data@.len() as int)
                                    == #[trigger] offer_fields_from(x, k as int) implies (forall|
                                t: int,
                            |
                                0 <= t < acc@.len() ==> (#[trigger] acc@[t]).host_name@
                                    == offer_addr_list(x, k as int)[t].host_name@ && acc@[t].port
                                    == offer_addr_list(x, k as int)[t].port) by {
                                assert forall|t: int| 0 <= t < acc@.len() implies (
                                #[trigger] acc@[t]).host_name@ == offer_addr_list(
                                    x,
                                    k as int,
                                )[t].host_name@ && acc@[t].port == offer_addr_list(
                                    x,
                                    k as int,
                                )[t].port by {
                                    if t < acc0.len() {
                                        assert(acc@[t] == acc0[t]);
                                    } else {
                                        assert(acc@[t] == a);
                                    }
                                }
                            }
                        }
                    },
                }
            },
        }
    }
    Some((acc, i))
}

/// Reads one repeated byte-string field of an offer payload at `i`, with
/// the same bookkeeping for the whole list.
#[verifier::rlimit(100)]
#[verifier::spinoff_prover]
fn offer_take_str_list(data: &[u8], i0: usize, k: u64) -> (r: Option<(Vec<Vec<u8>>, usize)>)
    requires
        i0 <= data@.len(),
        k == 19 || k == 21,
    ensures
        match r {
            Some((v, j)) => i0 <= j <= data@.len() && data@.subrange(i0 as int, j as int)
                == rep_len(k, v@),
            None => true,
        },
        forall|x: OfferPayload|
            data@.subrange(i0 as int, data@.len() as int) == #[trigger] offer_fields_from(
                x,
                k as int,
            ) ==> (r matches Some(p) && p.0@.len() == offer_str_list(x, k as int).len() && (
            forall|t: int|
                0 <= t < p.0@.len() ==> (#[trigger] p.0@[t])@ == offer_str_list(x, k as int)[t]@)
                && data@.subrange(p.1 as int, data@.len() as int) == offer_fields_from(
                x,
                k as int + 1,
            )),
{
    let mut i: usize = i0;
    let mut acc: Vec<Vec<u8>> = Vec::new();
    proof {
        lemma_subrange_empty(data@, i as int);
        assert forall|x: OfferPayload|
            data@.subrange(i0 as int, data@.len() as int) == #[trigger] offer_fields_from(
                x,
                k as int,
            ) implies data@.subrange(i as int, data@.len() as int) == rep_len(
            k,
            offer_str_list(x, k as int).skip(acc@.len() as int),
        ) + offer_fields_from(x, k as int + 1) by {
            assert(offer_str_list(x, k as int).skip(0) =~= offer_str_list(x, k as int));
        }
    }
    loop
        invariant
            i0 <= i <= data@.len(),
            k == 19 || k == 21,
            data@.subrange(i0 as int, i as int) == rep_len(k, acc@),
            forall|x: OfferPayload|
                data@.subrange(i0 as int, data@.len() as int) == #[trigger] offer_fields_from(
                    x,
                    k as int,
                ) ==> acc@.len() <= offer_str_list(x, k as int).len() && (forall|t: int|
                    0 <= t < acc@.len() ==> (#[trigger] acc@[t])@ == offer_str_list(
                        x,
                        k as int,
                    )[t]@) && data@.subrange(i as int, data@.len() as int) == rep_len(
                    k,
                    offer_str_list(x, k as int).skip(acc@.len() as int),
                ) + offer_fields_from(x, k as int + 1),
        ensures
            i0 <= i <= data@.len(),
            data@.subrange(i0 as int, i as int) == rep_len(k, acc@),
            forall|x: OfferPayload|
                data@.subrange(i0 as int, data@.len() as int) == #[trigger] offer_fields_from(
                    x,
                    k as int,
                ) ==> acc@.len() == offer_str_list(x, k as int).len() && (forall|t: int|
                    0 <= t < acc@.len() ==> (#[trigger] acc@[t])@ == offer_str_list(
                        x,
                        k as int,
                    )[t]@) && data@.subrange(i as int, data@.len() as int) == offer_fields_from(
                    x,
                    k as int + 1,
                ),
        decreases data@.len() - i,
    {
        let tk = take_len_field(data, i, k);
        proof {
            assert forall|x: OfferPayload|
                data@.subrange(i0 as int, data@.len() as int) == #[trigger] offer_fields_from(
                    x,
                    k as int,
                ) implies (if acc@.len() == offer_str_list(x, k as int).len() {
                (tk matches Ok(o) && o is None) && data@.subrange(i as int, data@.len() as int)
                    == offer_fields_from(x, k as int + 1)
            } else {
                tk matches Ok(o) && o matches Some(p) && p.0@ == offer_str_list(x, k as int)[
                acc@.len() as int]@ && data@.subrange(p.1 as int, data@.len() as int) == rep_len(
                    k,
                    offer_str_list(x, k as int).skip(acc@.len() as int + 1),
                ) + offer_fields_from(x, k as int + 1)
            }) by {
                let n = acc@.len() as int;
                let full = offer_str_list(x, k as int);
                let l = full.skip(n);
                if n == full.len() {
                    assert(l =~= Seq::<Vec<u8>>::empty());
                    assert(data@.subrange(i as int, data@.len() as int) =~= offer_fields_from(
                        x,
                        k as int + 1,
                    ));
                    lemma_offer_fields_shape(x, k as int + 1);
                    if offer_fields_from(x, k as int + 1).len() != 0 {
                        let (t, rest) = choose|t: u64, rest: Seq<u8>|
                            offer_fields_from(x, k as int + 1) == #[trigger] (varint_bytes(t)
                                + rest) && 8 * (k as int + 1) <= t;
                        assert(data@.subrange(i as int, data@.len() as int) == varint_bytes(t)
                            + rest);
                    } else {
                        assert(data@.subrange(i as int, data@.len() as int).len() == 0);
                    }
                } else {
                    assert(l[0] == full[n]);
                    assert(l.drop_first() =~= full.skip(n + 1));
                    let fl = field_len(k, full[n]@);
                    lemma_cat_assoc(
                        fl,
                        rep_len(k, full.skip(n + 1)),
                        offer_fields_from(x, k as int + 1),
                    );
                    assert(data@.subrange(i as int, data@.len() as int) == fl + (rep_len(
                        k,
                        full.skip(n + 1),
                    ) + offer_fields_from(x, k as int + 1)));
                    assert(data@.subrange(i + fl.len(), data@.len() as int) =~= data@.subrange(
                        i as int,
                        data@.len() as int,
                    ).skip(fl.len() as int));
                    assert((fl + (rep_len(k, full.skip(n + 1)) + offer_fields_from(
                        x,
                        k as int + 1,
                    ))).skip(fl.len() as int) =~= rep_len(k, full.skip(n + 1))
                        + offer_fields_from(x, k as int + 1));
                }
            }
        }
        match tk {
            Err(_) => {
                return None;
            },
            Ok(None) => {
                break ;
            },
            Ok(Some((b, j))) => {
                proof {
                    lemma_subrange_split(data@, i0 as int, i as int, j as int);
                    lemma_rep_len_push(k, acc@, b);
                }
                let ghost acc0 = acc@;
                acc.push(b);
                i = j;
                proof {
                    assert forall|x: OfferPayload|
                        data@.subrange(i0 as int, data@.len() as int)
                            == #[trigger] offer_fields_from(x, k as int) implies (forall|t: int|
                        0 <= t < acc@.len() ==> (#[trigger] acc@[t])@ == offer_str_list(
                            x,
                            k as int,
                        )[t]@) by {
                        assert forall|t: int| 0 <= t < acc@.len() implies (#[trigger] acc@[t])@
                            == offer_str_list(x, k as int)[t]@ by {
                            if t < acc0.len() {
                                assert(acc@[t] == acc0[t]);
                            } else {
                                assert(acc@[t] == acc0.push(acc@[t])[t]);
                            }
                        }
                    }
                }
            },
        }
    }
    Some((acc, i))
}

/// Reads the repeated extra-data entries of an offer payload at `i`, with
/// the same bookkeeping for the whole map.
#[verifier::rlimit(100)]
#[verifier::spinoff_prover]
fn offer_take_map_list(data: &[u8], i0: usize) -> (r: Option<(Vec<(Vec<u8>, Vec<u8>)>, usize)>)
    requires
        i0 <= data@.len(),
    ensures
        match r {
            Some((v, j)) => i0 <= j <= data@.len() && data@.subrange(i0 as int, j as int)
                == rep_map_entry(37, v@),
            None => true,
        },
        forall|x: OfferPayload|
            data@.subrange(i0 as int, data@.len() as int) == #[trigger] offer_fields_from(x, 37)
                ==> (r matches Some(p) && p.0@.len() == x.extra_data@.len() && (forall|t: int|
                0 <= t < p.0@.len() ==> (#[trigger] p.0@[t]).0@ == x.extra_data@[t].0@ && p.0@[
                t].1@ == x.extra_data@[t].1@) && data@.subrange(p.1 as int, data@.len() as int)
                == offer_fields_from(x, 38)),
{
    let mut i: usize = i0;
    let mut acc: Vec<(Vec<u8>, Vec<u8>)> = Vec::new();
    proof {
        lemma_subrange_empty(data@, i as int);
        assert forall|x: OfferPayload|
            data@.subrange(i0 as int, data@.len() as int) == #[trigger] offer_fields_from(x, 37)
            implies data@.subrange(i as int, data@.len() as int) == rep_map_entry(
            37,
            x.extra_data@.skip(acc@.len() as int),
        ) + offer_fields_from(x, 38) by {
            assert(x.extra_data@.skip(0) =~= x.extra_data@);
        }
    }
    loop
        invariant
            i0 <= i <= data@.len(),
            data@.subrange(i0 as int, i as int) == rep_map_entry(37, acc@),
            forall|x: OfferPayload|
                data@.subrange(i0 as int, data@.len() as int) == #[trigger] offer_fields_from(
                    x,
                    37,
                ) ==> acc@.len() <= x.extra_data@.len() && (forall|t: int|
                    0 <= t < acc@.len() ==> (#[trigger] acc@[t]).0@ == x.extra_data@[t].0@ && acc@[
                    t].1@ == x.extra_data@[t].1@) && data@.subrange(i as int, data@.len() as int)
                    == rep_map_entry(37, x.extra_data@.skip(acc@.len() as int))
                    + offer_fields_from(x, 38),
        ensures
            i0 <= i <= data@.len(),
            data@.subrange(i0 as int, i as int) == rep_map_entry(37, acc@),
            forall|x: OfferPayload|
                data@.subrange(i0 as int, data@.len() as int) == #[trigger] offer_fields_from(
                    x,
                    37,
                ) ==> acc@.len() == x.extra_data@.len() && (forall|t: int|
                    0 <= t < acc@.len() ==> (#[trigger] acc@[t]).0@ == x.extra_data@[t].0@ && acc@[
                    t].1@ == x.extra_data@[t].1@) && data@.subrange(i as int, data@.len() as int)
                    == offer_fields_from(x, 38),
        decreases data@.len() - i,
    {
        let tk = take_len_field(data, i, 37);
        proof {
            assert forall|x: OfferPayload|
                data@.subrange(i0 as int, data@.len() as int) == #[trigger] offer_fields_from(
                    x,
                    37,
                ) implies (if acc@.len() == x.extra_data@.len() {
                (tk matches Ok(o) && o is None) && data@.subrange(i as int, data@.len() as int)
                    == offer_fields_from(x, 38)
            } else {
                tk matches Ok(o) && o matches Some(p) && p.0@ == map_entry_bytes(
                    x.extra_data@[acc@.len() as int],
                ) && data@.subrange(p.1 as int, data@.len() as int) == rep_map_entry(
                    37,
                    x.extra_data@.skip(acc@.len() as int + 1),
                ) + offer_fields_from(x, 38)
            }) by {
                let n = acc@.len() as int;
                let full = x.extra_data@;
                let l = full.skip(n);
                if n == full.len() {
                    assert(l =~= Seq::<(Vec<u8>, Vec<u8>)>::empty());
                    assert(data@.subrange(i as int, data@.len() as int) =~= offer_fields_from(
                        x,
                        38,
                    ));
                    lemma_offer_fields_shape(x, 38);
                    if offer_fields_from(x, 38).len() != 0 {
                        let (t, rest) = choose|t: u64, rest: Seq<u8>|
                            offer_fields_from(x, 38) == #[trigger] (varint_bytes(t) + rest) && 8
                                * 38 <= t;
                        assert(data@.subrange(i as int, data@.len() as int) == varint_bytes(t)
                            + rest);
                    } else {
                        assert(data@.subrange(i as int, data@.len() as int).len() == 0);
                    }
                } else {
                    assert(l[0] == full[n]);
                    assert(l.drop_first() =~= full.skip(n + 1));
                    let fl = field_len(37, map_entry_bytes(full[n]));
                    lemma_cat_assoc(
                        fl,
                        rep_map_entry(37, full.skip(n + 1)),
                        offer_fields_from(x, 38),
                    );
                    assert(data@.subrange(i as int, data@.len() as int) == fl + (rep_map_entry(
                        37,
                        full.skip(n + 1),
                    ) + offer_fields_from(x, 38)));
                    assert(data@.subrange(i + fl.len(), data@.len() as int) =~= data@.subrange(
                        i as int,
                        data@.len() as int,
                    ).skip(fl.len() as int));
                    assert((fl + (rep_map_entry(37, full.skip(n + 1)) + offer_fields_from(
                        x,
                        38,
                    ))).skip(fl.len() as int) =~= rep_map_entry(37, full.skip(n + 1))
                        + offer_fields_from(x, 38));
                }
            }
        }
        match tk {
            Err(_) => {
                return None;
            },
            Ok(None) => {
                break ;
            },
            Ok(Some((b, j))) => {
                match decode_map_entry(b.as_slice()) {
                    None => {
                        return None;
                    },
                    Some(e) => {
                        proof {
                            lemma_subrange_split(data@, i0 as int, i as int, j as int);
                            lemma_rep_map_entry_push(37, acc@, e);
                        }
                        let ghost acc0 = acc@;
                        acc.push(e);
                        i = j;
                        proof {
                            assert forall|x: OfferPayload|
                                data@.subrange(i0 as int, data@.len() as int)
                                    == #[trigger] offer_fields_from(x, 37) implies (forall|t: int|
                                0 <= t < acc@.len() ==> (#[trigger] acc@[t]).0@ == x.extra_data@[
                                t].0@ && acc@[t].1@ == x.extra_data@[t].1@) by {
                                assert forall|t: int| 0 <= t < acc@.len() implies (
                                #[trigger] acc@[t]).0@ == x.extra_data@[t].0@ && acc@[t].1@
                                    == x.extra_data@[t].1@ by {
                                    if t < acc0.len() {
                                        assert(acc@[t] == acc0[t]);
                                    } else {
                                        assert(acc@[t] == e);
                                    }
                                }
                            }
                        }
                    },
                }
            },
        }
    }
    Some((acc, i))
}

struct OfferIdentity {
    id: Vec<u8>,
    date: u64,
    owner_node_address: Option<NodeAddress>,
    pub_key_ring: Option<PubKeyRing>,
    direction: Direction,
    price: u64,
}

#[verifier::rlimit(100)]
#[verifier::spinoff_prover]
fn decode_offer_identity(data: &[u8], start: usize) -> (r: Option<(OfferIdentity, usize)>)
    requires
        start <= data@.len(),
    ensures
        r matches Some((h, i)) ==> start <= i <= data@.len() && data@.subrange(
            start as int,
            i as int,
        ) == opt_len(1, h.id@) + opt_uint(2, h.date) + opt_node_address(3, h.owner_node_address) + opt_pub_key_ring(4, h.pub_key_ring) + opt_uint(5, direction_num(h.direction)) + opt_uint(6, h.price),
        forall|x: OfferPayload|
            data@.subrange(start as int, data@.len() as int) == #[trigger] offer_fields_from(x, 1)
                ==> (r matches Some(p) && p.0.id@ == x.id@ && p.0.date == x.date
                && opt_node_address_eqv(p.0.owner_node_address, x.owner_node_address)
                && opt_pub_key_ring_eqv(p.0.pub_key_ring, x.pub_key_ring) && p.0.direction
                == x.direction && p.0.price == x.price && data@.subrange(
                p.1 as int,
                data@.len() as int,
            ) == offer_fields_from(x, 7)),
{
    let mut i: usize = start;
    let ghost mut pre: Seq<u8> = Seq::empty();
    let p1: usize = i;
    let id: Vec<u8>;
    match offer_take_len(data, i, 1) {
        Err(_) => {
            proof {
                assert forall|x: OfferPayload|
                    data@.subrange(start as int, data@.len() as int) != #[trigger] offer_fields_from(
                        x,
                        1,
                    ) by {}
            }
            return None;
        },
        Ok(None) => { id = Vec::new(); },
        Ok(Some((b, j))) => { id = b; i = j; },
    }
    proof {
        lemma_subrange_empty(data@, p1 as int);
        assert(data@.subrange(p1 as int, i as int) == opt_len(1, id@));
        pre = opt_len(1, id@);
        assert(data@.subrange(start as int, i as int) == pre);
        assert forall|x: OfferPayload|
            data@.subrange(start as int, data@.len() as int) == #[trigger] offer_fields_from(
                x,
                1,
            ) implies x.id@ == id@ && data@.subrange(i as int, data@.len() as int)
            == offer_fields_from(x, 2) by {
            if x.id@.len() == 0 {
                assert(x.id@ =~= id@);
            }
        }

    }
    let p2: usize = i;
    let date: u64;
    match offer_take_uint(data, i, 2) {
        Err(_) => {
            proof {
                assert forall|x: OfferPayload|
                    data@.subrange(start as int, data@.len() as int) != #[trigger] offer_fields_from(
                        x,
                        1,
                    ) by {}
            }
            return None;
        },
        Ok(None) => { date = 0; },
        Ok(Some((v, j))) => { date = v; i = j; },
    }
    proof {
        lemma_subrange_empty(data@, i as int);
        lemma_subrange_split(data@, start as int, p2 as int, i as int);
        assert(data@.subrange(p2 as int, i as int) == opt_uint(2, date));
        pre = pre + opt_uint(2, date);
        assert(data@.subrange(start as int, i as int) == pre);
        assert forall|x: OfferPayload|
            data@.subrange(start as int, data@.len() as int) == #[trigger] offer_fields_from(
                x,
                1,
            ) implies x.id@ == id@ && x.date == date && data@.subrange(i as int, data@.len() as int)
            == offer_fields_from(x, 3) by {}

    }
    let p3: usize = i;
    let owner_node_address: Option<NodeAddress>;
    match offer_take_addr(data, i) {
        Err(_) => {
            proof {
                assert forall|x: OfferPayload|
                    data@.subrange(start as int, data@.len() as int) != #[trigger] offer_fields_from(
                        x,
                        1,
                    ) by {}
            }
            return None;
        },
        Ok(None) => { owner_node_address = None; },
        Ok(Some((a, j))) => { owner_node_address = Some(a); i = j; },
    }
    proof {
        lemma_subrange_empty(data@, i as int);
        lemma_subrange_split(data@, start as int, p3 as int, i as int);
        assert(data@.subrange(p3 as int, i as int) == opt_node_address(3, owner_node_address));
        pre = pre + opt_node_address(3, owner_node_address);
        assert(data@.subrange(start as int, i as int) == pre);
        assert forall|x: OfferPayload|
            data@.subrange(start as int, data@.len() as int) == #[trigger] offer_fields_from(
                x,
                1,
            ) implies x.id@ == id@ && x.date == date && opt_node_address_eqv(owner_node_address, x.owner_node_address) && data@.subrange(i as int, data@.len() as int)
            == offer_fields_from(x, 4) by {}

    }
    let p4: usize = i;
    let pub_key_ring: Option<PubKeyRing>;
    match offer_take_ring(data, i) {
        Err(_) => {
            proof {
                assert forall|x: OfferPayload|
                    data@.subrange(start as int, data@.len() as int) != #[trigger] offer_fields_from(
                        x,
                        1,
                    ) by {}
            }
            return None;
        },
        Ok(None) => { pub_key_ring = None; },
        Ok(Some((g, j))) => { pub_key_ring = Some(g); i = j; },
    }
    proof {
        lemma_subrange_empty(data@, i as int);
        lemma_subrange_split(data@, start as int, p4 as int, i as int);
        assert(data@.subrange(p4 as int, i as int) == opt_pub_key_ring(4, pub_key_ring));
        pre = pre + opt_pub_key_ring(4, pub_key_ring);
        assert(data@.subrange(start as int, i as int) == pre);
        assert forall|x: OfferPayload|
            data@.subrange(start as int, data@.len() as int) == #[trigger] offer_fields_from(
                x,
                1,
            ) implies x.id@ == id@ && x.date == date && opt_node_address_eqv(owner_node_address, x.owner_node_address) && opt_pub_key_ring_eqv(pub_key_ring, x.pub_key_ring) && data@.subrange(i as int, data@.len() as int)
            == offer_fields_from(x, 5) by {}

    }
    let p5: usize = i;
    let direction: Direction;
    match offer_take_uint(data, i, 5) {
        Err(_) => {
            proof {
                assert forall|x: OfferPayload|
                    data@.subrange(start as int, data@.len() as int) != #[trigger] offer_fields_from(
                        x,
                        1,
                    ) by {}
            }
            return None;
        },
        Ok(None) => { direction = Direction::Unspecified; },
        Ok(Some((v, j))) => {
            if v == 1 { direction = Direction::Buy; } else if v == 2 { direction = Direction::Sell; } else {
            proof {
                assert forall|x: OfferPayload|
                    data@.subrange(start as int, data@.len() as int) != #[trigger] offer_fields_from(
                        x,
                        1,
                    ) by {}
            }
            return None;
            }
            i = j;
        },
    }
    proof {
        lemma_subrange_empty(data@, i as int);
        lemma_subrange_split(data@, start as int, p5 as int, i as int);
        assert(data@.subrange(p5 as int, i as int) == opt_uint(5, direction_num(direction)));
        pre = pre + opt_uint(5, direction_num(direction));
        assert(data@.subrange(start as int, i as int) == pre);
        assert forall|x: OfferPayload|
            data@.subrange(start as int, data@.len() as int) == #[trigger] offer_fields_from(
                x,
                1,
            ) implies x.id@ == id@ && x.date == date && opt_node_address_eqv(owner_node_address, x.owner_node_address) && opt_pub_key_ring_eqv(pub_key_ring, x.pub_key_ring) && x.direction == direction && data@.subrange(i as int, data@.len() as int)
            == offer_fields_from(x, 6) by {}

    }
    let p6: usize = i;
    let price: u64;
    match offer_take_uint(data, i, 6) {
        Err(_) => {
            proof {
                assert forall|x: OfferPayload|
                    data@.subrange(start as int, data@.len() as int) != #[trigger] offer_fields_from(
                        x,
                        1,
                    ) by {}
            }
            return None;
        },
        Ok(None) => { price = 0; },
        Ok(Some((v, j))) => { price = v; i = j; },
    }
    proof {
        lemma_subrange_empty(data@, i as int);
        lemma_subrange_split(data@, start as int, p6 as int, i as int);
        assert(data@.subrange(p6 as int, i as int) == opt_uint(6, price));
        pre = pre + opt_uint(6, price);
        assert(data@.subrange(start as int, i as int) == pre);
        assert forall|x: OfferPayload|
            data@.subrange(start as int, data@.len() as int) == #[trigger] offer_fields_from(
                x,
                1,
            ) implies x.id@ == id@ && x.date == date && opt_node_address_eqv(owner_node_address, x.owner_node_address) && opt_pub_key_ring_eqv(pub_key_ring, x.pub_key_ring) && x.direction == direction && x.price == price && data@.subrange(i as int, data@.len() as int)
            == offer_fields_from(x, 7) by {}

    }
    Some((OfferIdentity { id, date, owner_node_address, pub_key_ring, direction, price }, i))
}

struct OfferTerms {
    market_price_margin_bits: u64,
    use_market_based_price: bool,
    amount: u64,
    min_amount: u64,
    base_currency_code: Vec<u8>,
    counter_currency_code: Vec<u8>,
}

#[verifier::rlimit(100)]
#[verifier::spinoff_prover]
fn decode_offer_terms(data: &[u8], start: usize) -> (r: Option<(OfferTerms, usize)>)
    requires
        start <= data@.len(),
    ensures
        r matches Some((h, i)) ==> start <= i <= data@.len() && data@.subrange(
            start as int,
            i as int,
        ) == opt_fix64(7, h.market_price_margin_bits) + opt_bool(8, h.use_market_based_price) + opt_uint(9, h.amount) + opt_uint(10, h.min_amount) + opt_len(11, h.base_currency_code@) + opt_len(12, h.counter_currency_code@),
        forall|x: OfferPayload|
            data@.subrange(start as int, data@.len() as int) == #[trigger] offer_fields_from(x, 7)
                ==> (r matches Some(p) && p.0.market_price_margin_bits
                == x.market_price_margin_bits && p.0.use_market_based_price
                == x.use_market_based_price && p.0.amount == x.amount && p.0.min_amount
                == x.min_amount && p.0.base_currency_code@ == x.base_currency_code@
                && p.0.counter_currency_code@ == x.counter_currency_code@ && data@.subrange(
                p.1 as int,
                data@.len() as int,
            ) == offer_fields_from(x, 13)),
{
    let mut i: usize = start;
    let ghost mut pre: Seq<u8> = Seq::empty();
    let p7: usize = i;
    let market_price_margin_bits: u64;
    match offer_take_margin(data, i) {
        Err(_) => {
            proof {
                assert forall|x: OfferPayload|
                    data@.subrange(start as int, data@.len() as int) != #[trigger] offer_fields_from(
                        x,
                        7,
                    ) by {}
            }
            return None;
        },
        Ok(None) => { market_price_margin_bits = 0; },
        Ok(Some((v, j))) => { market_price_margin_bits = v; i = j; },
    }
    proof {
        lemma_subrange_empty(data@, p7 as int);
        assert(data@.subrange(p7 as int, i as int) == opt_fix64(7, market_price_margin_bits));
        pre = opt_fix64(7, market_price_margin_bits);
        assert(data@.subrange(start as int, i as int) == pre);
        assert forall|x: OfferPayload|
            data@.subrange(start as int, data@.len() as int) == #[trigger] offer_fields_from(
                x,
                7,
            ) implies x.market_price_margin_bits == market_price_margin_bits && data@.subrange(i as int, data@.len() as int)
            == offer_fields_from(x, 8) by {}

    }
    let p8: usize = i;
    let use_market_based_price: bool;
    match offer_take_uint(data, i, 8) {
        Err(_) => {
            proof {
                assert forall|x: OfferPayload|
                    data@.subrange(start as int, data@.len() as int) != #[trigger] offer_fields_from(
                        x,
                        7,
                    ) by {}
            }
            return None;
        },
        Ok(None) => { use_market_based_price = false; },
        Ok(Some((v, j))) => {
            if v != 1 {
            proof {
                assert forall|x: OfferPayload|
                    data@.subrange(start as int, data@.len() as int) != #[trigger] offer_fields_from(
                        x,
                        7,
                    ) by {}
            }
            return None;
            }
            use_market_based_price = true;
            i = j;
        },
    }
    proof {
        lemma_subrange_empty(data@, i as int);
        lemma_subrange_split(data@, start as int, p8 as int, i as int);
        assert(data@.subrange(p8 as int, i as int) == opt_bool(8, use_market_based_price));
        pre = pre + opt_bool(8, use_market_based_price);
        assert(data@.subrange(start as int, i as int) == pre);
        assert forall|x: OfferPayload|
            data@.subrange(start as int, data@.len() as int) == #[trigger] offer_fields_from(
                x,
                7,
            ) implies x.market_price_margin_bits == market_price_margin_bits && x.use_market_based_price == use_market_based_price && data@.subrange(i as int, data@.len() as int)
            == offer_fields_from(x, 9) by {}

    }
    let p9: usize = i;
    let amount: u64;
    match offer_take_uint(data, i, 9) {
        Err(_) => {
            proof {
                assert forall|x: OfferPayload|
                    data@.subrange(start as int, data@.len() as int) != #[trigger] offer_fields_from(
                        x,
                        7,
                    ) by {}
            }
            return None;
        },
        Ok(None) => { amount = 0; },
        Ok(Some((v, j))) => { amount = v; i = j; },
    }
    proof {
        lemma_subrange_empty(data@, i as int);
        lemma_subrange_split(data@, start as int, p9 as int, i as int);
        assert(data@.subrange(p9 as int, i as int) == opt_uint(9, amount));
        pre = pre + opt_uint(9, amount);
        assert(data@.subrange(start as int, i as int) == pre);
        assert forall|x: OfferPayload|
            data@.subrange(start as int, data@.len() as int) == #[trigger] offer_fields_from(
                x,
                7,
            ) implies x.market_price_margin_bits == market_price_margin_bits && x.use_market_based_price == use_market_based_price && x.amount == amount && data@.subrange(i as int, data@.len() as int)
            == offer_fields_from(x, 10) by {}

    }
    let p10: usize = i;
    let min_amount: u64;
    match offer_take_uint(data, i, 10) {
        Err(_) => {
            proof {
                assert forall|x: OfferPayload|
                    data@.subrange(start as int, data@.len() as int) != #[trigger] offer_fields_from(
                        x,
                        7,
                    ) by {}
            }
            return None;
        },
        Ok(None) => { min_amount = 0; },
        Ok(Some((v, j))) => { min_amount = v; i = j; },
    }
    proof {
        lemma_subrange_empty(data@, i as int);
        lemma_subrange_split(data@, start as int, p10 as int, i as int);
        assert(data@.subrange(p10 as int, i as int) == opt_uint(10, min_amount));
        pre = pre + opt_uint(10, min_amount);
        assert(data@.subrange(start as int, i as int) == pre);
        assert forall|x: OfferPayload|
            data@.subrange(start as int, data@.len() as int) == #[trigger] offer_fields_from(
                x,
                7,
            ) implies x.market_price_margin_bits == market_price_margin_bits && x.use_market_based_price == use_market_based_price && x.amount == amount && x.min_amount == min_amount && data@.subrange(i as int, data@.len() as int)
            == offer_fields_from(x, 11) by {}

    }
    let p11: usize = i;
    let base_currency_code: Vec<u8>;
    match offer_take_len(data, i, 11) {
        Err(_) => {
            proof {
                assert forall|x: OfferPayload|
                    data@.subrange(start as int, data@.len() as int) != #[trigger] offer_fields_from(
                        x,
                        7,
                    ) by {}
            }
            return None;
        },
        Ok(None) => { base_currency_code = Vec::new(); },
        Ok(Some((b, j))) => { base_currency_code = b; i = j; },
    }
    proof {
        lemma_subrange_empty(data@, i as int);
        lemma_subrange_split(data@, start as int, p11 as int, i as int);
        assert(data@.subrange(p11 as int, i as int) == opt_len(11, base_currency_code@));
        pre = pre + opt_len(11, base_currency_code@);
        assert(data@.subrange(start as int, i as int) == pre);
        assert forall|x: OfferPayload|
            data@.subrange(start as int, data@.len() as int) == #[trigger] offer_fields_from(
                x,
                7,
            ) implies x.market_price_margin_bits == market_price_margin_bits && x.use_market_based_price == use_market_based_price && x.amount == amount && x.min_amount == min_amount && x.base_currency_code@ == base_currency_code@ && data@.subrange(i as int, data@.len() as int)
            == offer_fields_from(x, 12) by {
            if x.base_currency_code@.len() == 0 {
                assert(x.base_currency_code@ =~= base_currency_code@);
            }
        }

    }
    let p12: usize = i;
    let counter_currency_code: Vec<u8>;
    match offer_take_len(data, i, 12) {
        Err(_) => {
            proof {
                assert forall|x: OfferPayload|
                    data@.subrange(start as int, data@.len() as int) != #[trigger] offer_fields_from(
                        x,
                        7,
                    ) by {}
            }
            return None;
        },
        Ok(None) => { counter_currency_code = Vec::new(); },
        Ok(Some((b, j))) => { counter_currency_code = b; i = j; },
    }
    proof {
        lemma_subrange_empty(data@, i as int);
        lemma_subrange_split(data@, start as int, p12 as int, i as int);
        assert(data@.subrange(p12 as int, i as int) == opt_len(12, counter_currency_code@));
        pre = pre + opt_len(12, counter_currency_code@);
        assert(data@.subrange(start as int, i as int) == pre);
        assert forall|x: OfferPayload|
            data@.subrange(start as int, data@.len() as int) == #[trigger] offer_fields_from(
                x,
                7,
            ) implies x.market_price_margin_bits == market_price_margin_bits && x.use_market_based_price == use_market_based_price && x.amount == amount && x.min_amount == min_amount && x.base_currency_code@ == base_currency_code@ && x.counter_currency_code@ == counter_currency_code@ && data@.subrange(i as int, data@.len() as int)
            == offer_fields_from(x, 13) by {
            if x.counter_currency_code@.len() == 0 {
                assert(x.counter_currency_code@ =~= counter_currency_code@);
            }
        }

    }
    Some((OfferTerms { market_price_margin_bits, use_market_based_price, amount, min_amount, base_currency_code, counter_currency_code }, i))
}

struct OfferAgents {
    arbitrator_node_addresses: Vec<NodeAddress>,
    mediator_node_addresses: Vec<NodeAddress>,
    payment_method_id: Vec<u8>,
    maker_payment_account_id: Vec<u8>,
    offer_fee_payment_tx_id: Vec<u8>,
    country_code: Vec<u8>,
}

#[verifier::rlimit(100)]
#[verifier::spinoff_prover]
fn decode_offer_agents(data: &[u8], start: usize) -> (r: Option<(OfferAgents, usize)>)
    requires
        start <= data@.len(),
    ensures
        r matches Some((h, i)) ==> start <= i <= data@.len() && data@.subrange(
            start as int,
            i as int,
        ) == rep_node_address(13, h.arbitrator_node_addresses@) + rep_node_address(14, h.mediator_node_addresses@) + opt_len(15, h.payment_method_id@) + opt_len(16, h.maker_payment_account_id@) + opt_len(17, h.offer_fee_payment_tx_id@) + opt_len(18, h.country_code@),
        forall|x: OfferPayload|
            data@.subrange(start as int, data@.len() as int) == #[trigger] offer_fields_from(
                x,
                13,
            ) ==> (r matches Some(p) && addr_seq_eqv(
                p.0.arbitrator_node_addresses@,
                x.arbitrator_node_addresses@,
            ) && addr_seq_eqv(p.0.mediator_node_addresses@, x.mediator_node_addresses@)
                && p.0.payment_method_id@ == x.payment_method_id@ && p.0.maker_payment_account_id@
                == x.maker_payment_account_id@ && p.0.offer_fee_payment_tx_id@
                == x.offer_fee_payment_tx_id@ && p.0.country_code@ == x.country_code@
                && data@.subrange(p.1 as int, data@.len() as int) == offer_fields_from(x, 19)),
{
    let mut i: usize = start;
    let ghost mut pre: Seq<u8> = Seq::empty();
    let arbitrator_node_addresses: Vec<NodeAddress>;
    match offer_take_addr_list(data, i, 13) {
        None => {
            proof {
                assert forall|x: OfferPayload|
                    data@.subrange(start as int, data@.len() as int) != #[trigger] offer_fields_from(
                        x,
                        13,
                    ) by {}
            }
            return None;
        },
        Some((v, j)) => { arbitrator_node_addresses = v; i = j; },
    }
    proof {
        assert(data@.subrange(start as int, i as int) == rep_node_address(13, arbitrator_node_addresses@));
        pre = rep_node_address(13, arbitrator_node_addresses@);
        assert forall|x: OfferPayload|
            data@.subrange(start as int, data@.len() as int) == #[trigger] offer_fields_from(
                x,
                13,
            ) implies addr_seq_eqv(arbitrator_node_addresses@, x.arbitrator_node_addresses@) && data@.subrange(i as int, data@.len() as int)
            == offer_fields_from(x, 14) by {}

    }
    let p14: usize = i;
    let mediator_node_addresses: Vec<NodeAddress>;
    match offer_take_addr_list(data, i, 14) {
        None => {
            proof {
                assert forall|x: OfferPayload|
                    data@.subrange(start as int, data@.len() as int) != #[trigger] offer_fields_from(
                        x,
                        13,
                    ) by {}
            }
            return None;
        },
        Some((v, j)) => { mediator_node_addresses = v; i = j; },
    }
    proof {
        lemma_subrange_split(data@, start as int, p14 as int, i as int);
        assert(data@.subrange(p14 as int, i as int) == rep_node_address(14, mediator_node_addresses@));
        pre = pre + rep_node_address(14, mediator_node_addresses@);
        assert(data@.subrange(start as int, i as int) == pre);
        assert forall|x: OfferPayload|
            data@.subrange(start as int, data@.len() as int) == #[trigger] offer_fields_from(
                x,
                13,
            ) implies addr_seq_eqv(arbitrator_node_addresses@, x.arbitrator_node_addresses@) && addr_seq_eqv(mediator_node_addresses@, x.mediator_node_addresses@) && data@.subrange(i as int, data@.len() as int)
            == offer_fields_from(x, 15) by {}

    }
    let p15: usize = i;
    let payment_method_id: Vec<u8>;
    match offer_take_len(data, i, 15) {
        Err(_) => {
            proof {
                assert forall|x: OfferPayload|
                    data@.subrange(start as int, data@.len() as int) != #[trigger] offer_fields_from(
                        x,
                        13,
                    ) by {}
            }
            return None;
        },
        Ok(None) => { payment_method_id = Vec::new(); },
        Ok(Some((b, j))) => { payment_method_id = b; i = j; },
    }
    proof {
        lemma_subrange_empty(data@, i as int);
        lemma_subrange_split(data@, start as int, p15 as int, i as int);
        assert(data@.subrange(p15 as int, i as int) == opt_len(15, payment_method_id@));
        pre = pre + opt_len(15, payment_method_id@);
        assert(data@.subrange(start as int, i as int) == pre);
        assert forall|x: OfferPayload|
            data@.subrange(start as int, data@.len() as int) == #[trigger] offer_fields_from(
                x,
                13,
            ) implies addr_seq_eqv(arbitrator_node_addresses@, x.arbitrator_node_addresses@) && addr_seq_eqv(mediator_node_addresses@, x.mediator_node_addresses@) && x.payment_method_id@ == payment_method_id@ && data@.subrange(i as int, data@.len() as int)
            == offer_fields_from(x, 16) by {
            if x.payment_method_id@.len() == 0 {
                assert(x.payment_method_id@ =~= payment_method_id@);
            }
        }

    }
    let p16: usize = i;
    let maker_payment_account_id: Vec<u8>;
    match offer_take_len(data, i, 16) {
        Err(_) => {
            proof {
                assert forall|x: OfferPayload|
                    data@.subrange(start as int, data@.len() as int) != #[trigger] offer_fields_from(
                        x,
                        13,
                    ) by {}
            }
            return None;
        },
        Ok(None) => { maker_payment_account_id = Vec::new(); },
        Ok(Some((b, j))) => { maker_payment_account_id = b; i = j; },
    }
    proof {
        lemma_subrange_empty(data@, i as int);
        lemma_subrange_split(data@, start as int, p16 as int, i as int);
        assert(data@.subrange(p16 as int, i as int) == opt_len(16, maker_payment_account_id@));
        pre = pre + opt_len(16, maker_payment_account_id@);
        assert(data@.subrange(start as int, i as int) == pre);
        assert forall|x: OfferPayload|
            data@.subrange(start as int, data@.len() as int) == #[trigger] offer_fields_from(
                x,
                13,
            ) implies addr_seq_eqv(arbitrator_node_addresses@, x.arbitrator_node_addresses@) && addr_seq_eqv(mediator_node_addresses@, x.mediator_node_addresses@) && x.payment_method_id@ == payment_method_id@ && x.maker_payment_account_id@ == maker_payment_account_id@ && data@.subrange(i as int, data@.len() as int)
            == offer_fields_from(x, 17) by {
            if x.maker_payment_account_id@.len() == 0 {
                assert(x.maker_payment_account_id@ =~= maker_payment_account_id@);
            }
        }

    }
    let p17: usize = i;
    let offer_fee_payment_tx_id: Vec<u8>;
    match offer_take_len(data, i, 17) {
        Err(_) => {
            proof {
                assert forall|x: OfferPayload|
                    data@.subrange(start as int, data@.len() as int) != #[trigger] offer_fields_from(
                        x,
                        13,
                    ) by {}
            }
            return None;
        },
        Ok(None) => { offer_fee_payment_tx_id = Vec::new(); },
        Ok(Some((b, j))) => { offer_fee_payment_tx_id = b; i = j; },
    }
    proof {
        lemma_subrange_empty(data@, i as int);
        lemma_subrange_split(data@, start as int, p17 as int, i as int);
        assert(data@.subrange(p17 as int, i as int) == opt_len(17, offer_fee_payment_tx_id@));
        pre = pre + opt_len(17, offer_fee_payment_tx_id@);
        assert(data@.subrange(start as int, i as int) == pre);
        assert forall|x: OfferPayload|
            data@.subrange(start as int, data@.len() as int) == #[trigger] offer_fields_from(
                x,
                13,
            ) implies addr_seq_eqv(arbitrator_node_addresses@, x.arbitrator_node_addresses@) && addr_seq_eqv(mediator_node_addresses@, x.mediator_node_addresses@) && x.payment_method_id@ == payment_method_id@ && x.maker_payment_account_id@ == maker_payment_account_id@ && x.offer_fee_payment_tx_id@ == offer_fee_payment_tx_id@ && data@.subrange(i as int, data@.len() as int)
            == offer_fields_from(x, 18) by {
            if x.offer_fee_payment_tx_id@.len() == 0 {
                assert(x.offer_fee_payment_tx_id@ =~= offer_fee_payment_tx_id@);
            }
        }

    }
    let p18: usize = i;
    let country_code: Vec<u8>;
    match offer_take_len(data, i, 18) {
        Err(_) => {
            proof {
                assert forall|x: OfferPayload|
                    data@.subrange(start as int, data@.len() as int) != #[trigger] offer_fields_from(
                        x,
                        13,
                    ) by {}
            }
            return None;
        },
        Ok(None) => { country_code = Vec::new(); },
        Ok(Some((b, j))) => { country_code = b; i = j; },
    }
    proof {
        lemma_subrange_empty(data@, i as int);
        lemma_subrange_split(data@, start as int, p18 as int, i as int);
        assert(data@.subrange(p18 as int, i as int) == opt_len(18, country_code@));
        pre = pre + opt_len(18, country_code@);
        assert(data@.subrange(start as int, i as int) == pre);
        assert forall|x: OfferPayload|
            data@.subrange(start as int, data@.len() as int) == #[trigger] offer_fields_from(
                x,
                13,
            ) implies addr_seq_eqv(arbitrator_node_addresses@, x.arbitrator_node_addresses@) && addr_seq_eqv(mediator_node_addresses@, x.mediator_node_addresses@) && x.payment_method_id@ == payment_method_id@ && x.maker_payment_account_id@ == maker_payment_account_id@ && x.offer_fee_payment_tx_id@ == offer_fee_payment_tx_id@ && x.country_code@ == country_code@ && data@.subrange(i as int, data@.len() as int)
            == offer_fields_from(x, 19) by {
            if x.country_code@.len() == 0 {
                assert(x.country_code@ =~= country_code@);
            }
        }

    }
    Some((OfferAgents { arbitrator_node_addresses, mediator_node_addresses, payment_method_id, maker_payment_account_id, offer_fee_payment_tx_id, country_code }, i))
}

struct OfferMarkets {
    accepted_country_codes: Vec<Vec<u8>>,
    bank_id: Vec<u8>,
    accepted_bank_ids: Vec<Vec<u8>>,
    version_nr: Vec<u8>,
}

#[verifier::rlimit(100)]
#[verifier::spinoff_prover]
fn decode_offer_markets(data: &[u8], start: usize) -> (r: Option<(OfferMarkets, usize)>)
    requires
        start <= data@.len(),
    ensures
        r matches Some((h, i)) ==> start <= i <= data@.len() && data@.subrange(
            start as int,
            i as int,
        ) == rep_len(19, h.accepted_country_codes@) + opt_len(20, h.bank_id@) + rep_len(21, h.accepted_bank_ids@) + opt_len(22, h.version_nr@),
        forall|x: OfferPayload|
            data@.subrange(start as int, data@.len() as int) == #[trigger] offer_fields_from(
                x,
                19,
            ) ==> (r matches Some(p) && str_seq_eqv(
                p.0.accepted_country_codes@,
                x.accepted_country_codes@,
            ) && p.0.bank_id@ == x.bank_id@ && str_seq_eqv(
                p.0.accepted_bank_ids@,
                x.accepted_bank_ids@,
            ) && p.0.version_nr@ == x.version_nr@ && data@.subrange(
                p.1 as int,
                data@.len() as int,
            ) == offer_fields_from(x, 23)),
{
    let mut i: usize = start;
    let ghost mut pre: Seq<u8> = Seq::empty();
    let accepted_country_codes: Vec<Vec<u8>>;
    match offer_take_str_list(data, i, 19) {
        None => {
            proof {
                assert forall|x: OfferPayload|
                    data@.subrange(start as int, data@.len() as int) != #[trigger] offer_fields_from(
                        x,
                        19,
                    ) by {}
            }
            return None;
        },
        Some((v, j)) => { accepted_country_codes = v; i = j; },
    }
    proof {
        assert(data@.subrange(start as int, i as int) == rep_len(19, accepted_country_codes@));
        pre = rep_len(19, accepted_country_codes@);
        assert forall|x: OfferPayload|
            data@.subrange(start as int, data@.len() as int) == #[trigger] offer_fields_from(
                x,
                19,
            ) implies str_seq_eqv(accepted_country_codes@, x.accepted_country_codes@) && data@.subrange(i as int, data@.len() as int)
            == offer_fields_from(x, 20) by {}

    }
    let p20: usize = i;
    let bank_id: Vec<u8>;
    match offer_take_len(data, i, 20) {
        Err(_) => {
            proof {
                assert forall|x: OfferPayload|
                    data@.subrange(start as int, data@.len() as int) != #[trigger] offer_fields_from(
                        x,
                        19,
                    ) by {}
            }
            return None;
        },
        Ok(None) => { bank_id = Vec::new(); },
        Ok(Some((b, j))) => { bank_id = b; i = j; },
    }
    proof {
        lemma_subrange_empty(data@, i as int);
        lemma_subrange_split(data@, start as int, p20 as int, i as int);
        assert(data@.subrange(p20 as int, i as int) == opt_len(20, bank_id@));
        pre = pre + opt_len(20, bank_id@);
        assert(data@.subrange(start as int, i as int) == pre);
        assert forall|x: OfferPayload|
            data@.subrange(start as int, data@.len() as int) == #[trigger] offer_fields_from(
                x,
                19,
            ) implies str_seq_eqv(accepted_country_codes@, x.accepted_country_codes@) && x.bank_id@ == bank_id@ && data@.subrange(i as int, data@.len() as int)
            == offer_fields_from(x, 21) by {
            if x.bank_id@.len() == 0 {
                assert(x.bank_id@ =~= bank_id@);
            }
        }

    }
    let p21: usize = i;
    let accepted_bank_ids: Vec<Vec<u8>>;
    match offer_take_str_list(data, i, 21) {
        None => {
            proof {
                assert forall|x: OfferPayload|
                    data@.subrange(start as int, data@.len() as int) != #[trigger] offer_fields_from(
                        x,
                        19,
                    ) by {}
            }
            return None;
        },
        Some((v, j)) => { accepted_bank_ids = v; i = j; },
    }
    proof {
        lemma_subrange_split(data@, start as int, p21 as int, i as int);
        assert(data@.subrange(p21 as int, i as int) == rep_len(21, accepted_bank_ids@));
        pre = pre + rep_len(21, accepted_bank_ids@);
        assert(data@.subrange(start as int, i as int) == pre);
        assert forall|x: OfferPayload|
            data@.subrange(start as int, data@.len() as int) == #[trigger] offer_fields_from(
                x,
                19,
            ) implies str_seq_eqv(accepted_country_codes@, x.accepted_country_codes@) && x.bank_id@ == bank_id@ && str_seq_eqv(accepted_bank_ids@, x.accepted_bank_ids@) && data@.subrange(i as int, data@.len() as int)
            == offer_fields_from(x, 22) by {}

    }
    let p22: usize = i;
    let version_nr: Vec<u8>;
    match offer_take_len(data, i, 22) {
        Err(_) => {
            proof {
                assert forall|x: OfferPayload|
                    data@.subrange(start as int, data@.len() as int) != #[trigger] offer_fields_from(
                        x,
                        19,
                    ) by {}
            }
            return None;
        },
        Ok(None) => { version_nr = Vec::new(); },
        Ok(Some((b, j))) => { version_nr = b; i = j; },
    }
    proof {
        lemma_subrange_empty(data@, i as int);
        lemma_subrange_split(data@, start as int, p22 as int, i as int);
        assert(data@.subrange(p22 as int, i as int) == opt_len(22, version_nr@));
        pre = pre + opt_len(22, version_nr@);
        assert(data@.subrange(start as int, i as int) == pre);
        assert forall|x: OfferPayload|
            data@.subrange(start as int, data@.len() as int) == #[trigger] offer_fields_from(
                x,
                19,
            ) implies str_seq_eqv(accepted_country_codes@, x.accepted_country_codes@) && x.bank_id@ == bank_id@ && str_seq_eqv(accepted_bank_ids@, x.accepted_bank_ids@) && x.version_nr@ == version_nr@ && data@.subrange(i as int, data@.len() as int)
            == offer_fields_from(x, 23) by {
            if x.version_nr@.len() == 0 {
                assert(x.version_nr@ =~= version_nr@);
            }
        }

    }
    Some((OfferMarkets { accepted_country_codes, bank_id, accepted_bank_ids, version_nr }, i))
}

struct OfferFees {
    block_height_at_offer_creation: u64,
    tx_fee: u64,
    maker_fee: u64,
    is_currency_for_maker_fee_btc: bool,
    buyer_security_deposit: u64,
}

#[verifier::rlimit(100)]
#[verifier::spinoff_prover]
fn decode_offer_fees(data: &[u8], start: usize) -> (r: Option<(OfferFees, usize)>)
    requires
        start <= data@.len(),
    ensures
        r matches Some((h, i)) ==> start <= i <= data@.len() && data@.subrange(
            start as int,
            i as int,
        ) == opt_uint(23, h.block_height_at_offer_creation) + opt_uint(24, h.tx_fee) + opt_uint(25, h.maker_fee) + opt_bool(26, h.is_currency_for_maker_fee_btc) + opt_uint(27, h.buyer_security_deposit),
        forall|x: OfferPayload|
            data@.subrange(start as int, data@.len() as int) == #[trigger] offer_fields_from(
                x,
                23,
            ) ==> (r matches Some(p) && p.0.block_height_at_offer_creation
                == x.block_height_at_offer_creation && p.0.tx_fee == x.tx_fee && p.0.maker_fee
                == x.maker_fee && p.0.is_currency_for_maker_fee_btc
                == x.is_currency_for_maker_fee_btc && p.0.buyer_security_deposit
                == x.buyer_security_deposit && data@.subrange(p.1 as int, data@.len() as int)
                == offer_fields_from(x, 28)),
{
    let mut i: usize = start;
    let ghost mut pre: Seq<u8> = Seq::empty();
    let p23: usize = i;
    let block_height_at_offer_creation: u64;
    match offer_take_uint(data, i, 23) {
        Err(_) => {
            proof {
                assert forall|x: OfferPayload|
                    data@.subrange(start as int, data@.len() as int) != #[trigger] offer_fields_from(
                        x,
                        23,
                    ) by {}
            }
            return None;
        },
        Ok(None) => { block_height_at_offer_creation = 0; },
        Ok(Some((v, j))) => { block_height_at_offer_creation = v; i = j; },
    }
    proof {
        lemma_subrange_empty(data@, p23 as int);
        assert(data@.subrange(p23 as int, i as int) == opt_uint(23, block_height_at_offer_creation));
        pre = opt_uint(23, block_height_at_offer_creation);
        assert(data@.subrange(start as int, i as int) == pre);
        assert forall|x: OfferPayload|
            data@.subrange(start as int, data@.len() as int) == #[trigger] offer_fields_from(
                x,
                23,
            ) implies x.block_height_at_offer_creation == block_height_at_offer_creation && data@.subrange(i as int, data@.len() as int)
            == offer_fields_from(x, 24) by {}

    }
    let p24: usize = i;
    let tx_fee: u64;
    match offer_take_uint(data, i, 24) {
        Err(_) => {
            proof {
                assert forall|x: OfferPayload|
                    data@.subrange(start as int, data@.len() as int) != #[trigger] offer_fields_from(
                        x,
                        23,
                    ) by {}
            }
            return None;
        },
        Ok(None) => { tx_fee = 0; },
        Ok(Some((v, j))) => { tx_fee = v; i = j; },
    }
    proof {
        lemma_subrange_empty(data@, i as int);
        lemma_subrange_split(data@, start as int, p24 as int, i as int);
        assert(data@.subrange(p24 as int, i as int) == opt_uint(24, tx_fee));
        pre = pre + opt_uint(24, tx_fee);
        assert(data@.subrange(start as int, i as int) == pre);
        assert forall|x: OfferPayload|
            data@.subrange(start as int, data@.len() as int) == #[trigger] offer_fields_from(
                x,
                23,
            ) implies x.block_height_at_offer_creation == block_height_at_offer_creation && x.tx_fee == tx_fee && data@.subrange(i as int, data@.len() as int)
            == offer_fields_from(x, 25) by {}

    }
    let p25: usize = i;
    let maker_fee: u64;
    match offer_take_uint(data, i, 25) {
        Err(_) => {
            proof {
                assert forall|x: OfferPayload|
                    data@.subrange(start as int, data@.len() as int) != #[trigger] offer_fields_from(
                        x,
                        23,
                    ) by {}
            }
            return None;
        },
        Ok(None) => { maker_fee = 0; },
        Ok(Some((v, j))) => { maker_fee = v; i = j; },
    }
    proof {
        lemma_subrange_empty(data@, i as int);
        lemma_subrange_split(data@, start as int, p25 as int, i as int);
        assert(data@.subrange(p25 as int, i as int) == opt_uint(25, maker_fee));
        pre = pre + opt_uint(25, maker_fee);
        assert(data@.subrange(start as int, i as int) == pre);
        assert forall|x: OfferPayload|
            data@.subrange(start as int, data@.len() as int) == #[trigger] offer_fields_from(
                x,
                23,
            ) implies x.block_height_at_offer_creation == block_height_at_offer_creation && x.tx_fee == tx_fee && x.maker_fee == maker_fee && data@.subrange(i as int, data@.len() as int)
            == offer_fields_from(x, 26) by {}

    }
    let p26: usize = i;
    let is_currency_for_maker_fee_btc: bool;
    match offer_take_uint(data, i, 26) {
        Err(_) => {
            proof {
                assert forall|x: OfferPayload|
                    data@.subrange(start as int, data@.len() as int) != #[trigger] offer_fields_from(
                        x,
                        23,
                    ) by {}
            }
            return None;
        },
        Ok(None) => { is_currency_for_maker_fee_btc = false; },
        Ok(Some((v, j))) => {
            if v != 1 {
            proof {
                assert forall|x: OfferPayload|
                    data@.subrange(start as int, data@.len() as int) != #[trigger] offer_fields_from(
                        x,
                        23,
                    ) by {}
            }
            return None;
            }
            is_currency_for_maker_fee_btc = true;
            i = j;
        },
    }
    proof {
        lemma_subrange_empty(data@, i as int);
        lemma_subrange_split(data@, start as int, p26 as int, i as int);
        assert(data@.subrange(p26 as int, i as int) == opt_bool(26, is_currency_for_maker_fee_btc));
        pre = pre + opt_bool(26, is_currency_for_maker_fee_btc);
        assert(data@.subrange(start as int, i as int) == pre);
        assert forall|x: OfferPayload|
            data@.subrange(start as int, data@.len() as int) == #[trigger] offer_fields_from(
                x,
                23,
            ) implies x.block_height_at_offer_creation == block_height_at_offer_creation && x.tx_fee == tx_fee && x.maker_fee == maker_fee && x.is_currency_for_maker_fee_btc == is_currency_for_maker_fee_btc && data@.subrange(i as int, data@.len() as int)
            == offer_fields_from(x, 27) by {}

    }
    let p27: usize = i;
    let buyer_security_deposit: u64;
    match offer_take_uint(data, i, 27) {
        Err(_) => {
            proof {
                assert forall|x: OfferPayload|
                    data@.subrange(start as int, data@.len() as int) != #[trigger] offer_fields_from(
                        x,
                        23,
                    ) by {}
            }
            return None;
        },
        Ok(None) => { buyer_security_deposit = 0; },
        Ok(Some((v, j))) => { buyer_security_deposit = v; i = j; },
    }
    proof {
        lemma_subrange_empty(data@, i as int);
        lemma_subrange_split(data@, start as int, p27 as int, i as int);
        assert(data@.subrange(p27 as int, i as int) == opt_uint(27, buyer_security_deposit));
        pre = pre + opt_uint(27, buyer_security_deposit);
        assert(data@.subrange(start as int, i as int) == pre);
        assert forall|x: OfferPayload|
            data@.subrange(start as int, data@.len() as int) == #[trigger] offer_fields_from(
                x,
                23,
            ) implies x.block_height_at_offer_creation == block_height_at_offer_creation && x.tx_fee == tx_fee && x.maker_fee == maker_fee && x.is_currency_for_maker_fee_btc == is_currency_for_maker_fee_btc && x.buyer_security_deposit == buyer_security_deposit && data@.subrange(i as int, data@.len() as int)
            == offer_fields_from(x, 28) by {}

    }
    Some((OfferFees { block_height_at_offer_creation, tx_fee, maker_fee, is_currency_for_maker_fee_btc, buyer_security_deposit }, i))
}

struct OfferLimits {
    seller_security_deposit: u64,
    max_trade_limit: u64,
    max_trade_period: u64,
    extra_data: Vec<(Vec<u8>, Vec<u8>)>,
    protocol_version: u32,
}

#[verifier::rlimit(100)]
#[verifier::spinoff_prover]
fn decode_offer_limits(data: &[u8], start: usize) -> (r: Option<(OfferLimits, usize)>)
    requires
        start <= data@.len(),
    ensures
        r matches Some((h, i)) ==> start <= i <= data@.len() && data@.subrange(
            start as int,
            i as int,
        ) == opt_uint(28, h.seller_security_deposit) + opt_uint(29, h.max_trade_limit) + opt_uint(30, h.max_trade_period) + rep_map_entry(37, h.extra_data@) + opt_uint(38, h.protocol_version as u64),
        forall|x: OfferPayload|
            data@.subrange(start as int, data@.len() as int) == #[trigger] offer_fields_from(
                x,
                28,
            ) ==> (r matches Some(p) && p.0.seller_security_deposit == x.seller_security_deposit
                && p.0.max_trade_limit == x.max_trade_limit && p.0.max_trade_period
                == x.max_trade_period && map_seq_eqv(p.0.extra_data@, x.extra_data@)
                && p.0.protocol_version == x.protocol_version && data@.subrange(
                p.1 as int,
                data@.len() as int,
            ) == offer_fields_from(x, 39)),
{
    let mut i: usize = start;
    let ghost mut pre: Seq<u8> = Seq::empty();
    let p28: usize = i;
    let seller_security_deposit: u64;
    match offer_take_uint(data, i, 28) {
        Err(_) => {
            proof {
                assert forall|x: OfferPayload|
                    data@.subrange(start as int, data@.len() as int) != #[trigger] offer_fields_from(
                        x,
                        28,
                    ) by {}
            }
            return None;
        },
        Ok(None) => { seller_security_deposit = 0; },
        Ok(Some((v, j))) => { seller_security_deposit = v; i = j; },
    }
    proof {
        lemma_subrange_empty(data@, p28 as int);
        assert(data@.subrange(p28 as int, i as int) == opt_uint(28, seller_security_deposit));
        pre = opt_uint(28, seller_security_deposit);
        assert(data@.subrange(start as int, i as int) == pre);
        assert forall|x: OfferPayload|
            data@.subrange(start as int, data@.len() as int) == #[trigger] offer_fields_from(
                x,
                28,
            ) implies x.seller_security_deposit == seller_security_deposit && data@.subrange(i as int, data@.len() as int)
            == offer_fields_from(x, 29) by {}

    }
    let p29: usize = i;
    let max_trade_limit: u64;
    match offer_take_uint(data, i, 29) {
        Err(_) => {
            proof {
                assert forall|x: OfferPayload|
                    data@.subrange(start as int, data@.len() as int) != #[trigger] offer_fields_from(
                        x,
                        28,
                    ) by {}
            }
            return None;
        },
        Ok(None) => { max_trade_limit = 0; },
        Ok(Some((v, j))) => { max_trade_limit = v; i = j; },
    }
    proof {
        lemma_subrange_empty(data@, i as int);
        lemma_subrange_split(data@, start as int, p29 as int, i as int);
        assert(data@.subrange(p29 as int, i as int) == opt_uint(29, max_trade_limit));
        pre = pre + opt_uint(29, max_trade_limit);
        assert(data@.subrange(start as int, i as int) == pre);
        assert forall|x: OfferPayload|
            data@.subrange(start as int, data@.len() as int) == #[trigger] offer_fields_from(
                x,
                28,
            ) implies x.seller_security_deposit == seller_security_deposit && x.max_trade_limit == max_trade_limit && data@.subrange(i as int, data@.len() as int)
            == offer_fields_from(x, 30) by {}

    }
    let p30: usize = i;
    let max_trade_period: u64;
    match offer_take_uint(data, i, 30) {
        Err(_) => {
            proof {
                assert forall|x: OfferPayload|
                    data@.subrange(start as int, data@.len() as int) != #[trigger] offer_fields_from(
                        x,
                        28,
                    ) by {}
            }
            return None;
        },
        Ok(None) => { max_trade_period = 0; },
        Ok(Some((v, j))) => { max_trade_period = v; i = j; },
    }
    proof {
        lemma_subrange_empty(data@, i as int);
        lemma_subrange_split(data@, start as int, p30 as int, i as int);
        assert(data@.subrange(p30 as int, i as int) == opt_uint(30, max_trade_period));
        pre = pre + opt_uint(30, max_trade_period);
        assert(data@.subrange(start as int, i as int) == pre);
        assert forall|x: OfferPayload|
            data@.subrange(start as int, data@.len() as int) == #[trigger] offer_fields_from(
                x,
                28,
            ) implies x.seller_security_deposit == seller_security_deposit && x.max_trade_limit == max_trade_limit && x.max_trade_period == max_trade_period && data@.subrange(i as int, data@.len() as int)
            == offer_fields_from(x, 37) by {
            assert(offer_fields_from(x, 31) =~= offer_fields_from(x, 32));
            assert(offer_fields_from(x, 32) =~= offer_fields_from(x, 33));
            assert(offer_fields_from(x, 33) =~= offer_fields_from(x, 34));
            assert(offer_fields_from(x, 34) =~= offer_fields_from(x, 35));
            assert(offer_fields_from(x, 35) =~= offer_fields_from(x, 36));
            assert(offer_fields_from(x, 36) =~= offer_fields_from(x, 37));
        }

    }
    let p37: usize = i;
    let extra_data: Vec<(Vec<u8>, Vec<u8>)>;
    match offer_take_map_list(data, i) {
        None => {
            proof {
                assert forall|x: OfferPayload|
                    data@.subrange(start as int, data@.len() as int) != #[trigger] offer_fields_from(
                        x,
                        28,
                    ) by {}
            }
            return None;
        },
        Some((v, j)) => { extra_data = v; i = j; },
    }
    proof {
        lemma_subrange_split(data@, start as int, p37 as int, i as int);
        assert(data@.subrange(p37 as int, i as int) == rep_map_entry(37, extra_data@));
        pre = pre + rep_map_entry(37, extra_data@);
        assert(data@.subrange(start as int, i as int) == pre);
        assert forall|x: OfferPayload|
            data@.subrange(start as int, data@.len() as int) == #[trigger] offer_fields_from(
                x,
                28,
            ) implies x.seller_security_deposit == seller_security_deposit && x.max_trade_limit == max_trade_limit && x.max_trade_period == max_trade_period && map_seq_eqv(extra_data@, x.extra_data@) && data@.subrange(i as int, data@.len() as int)
            == offer_fields_from(x, 38) by {}

    }
    let p38: usize = i;
    let protocol_version: u32;
    match offer_take_uint(data, i, 38) {
        Err(_) => {
            proof {
                assert forall|x: OfferPayload|
                    data@.subrange(start as int, data@.len() as int) != #[trigger] offer_fields_from(
                        x,
                        28,
                    ) by {}
            }
            return None;
        },
        Ok(None) => { protocol_version = 0; },
        Ok(Some((v, j))) => {
            if v > 0xffff_ffff {
            proof {
                assert forall|x: OfferPayload|
                    data@.subrange(start as int, data@.len() as int) != #[trigger] offer_fields_from(
                        x,
                        28,
                    ) by {}
            }
            return None;
            }
            protocol_version = v as u32;
            i = j;
        },
    }
    proof {
        lemma_subrange_empty(data@, i as int);
        lemma_subrange_split(data@, start as int, p38 as int, i as int);
        assert(data@.subrange(p38 as int, i as int) == opt_uint(38, protocol_version as u64));
        pre = pre + opt_uint(38, protocol_version as u64);
        assert(data@.subrange(start as int, i as int) == pre);
        assert forall|x: OfferPayload|
            data@.subrange(start as int, data@.len() as int) == #[trigger] offer_fields_from(
                x,
                28,
            ) implies x.seller_security_deposit == seller_security_deposit && x.max_trade_limit == max_trade_limit && x.max_trade_period == max_trade_period && map_seq_eqv(extra_data@, x.extra_data@) && x.protocol_version == protocol_version && data@.subrange(i as int, data@.len() as int)
            == offer_fields_from(x, 39) by {}

    }
    Some((OfferLimits { seller_security_deposit, max_trade_limit, max_trade_period, extra_data, protocol_version }, i))
}

/// View-level equality of two offer payloads, field for field.
pub open spec fn offer_payload_eqv(a: OfferPayload, b: OfferPayload) -> bool {
    &&& a.id@ == b.id@
    &&& a.date == b.date
    &&& opt_node_address_eqv(a.owner_node_address, b.owner_node_address)
    &&& opt_pub_key_ring_eqv(a.pub_key_ring, b.pub_key_ring)
    &&& a.direction == b.direction
    &&& a.price == b.price
    &&& a.market_price_margin_bits == b.market_price_margin_bits
    &&& a.use_market_based_price == b.use_market_based_price
    &&& a.amount == b.amount
    &&& a.min_amount == b.min_amount
    &&& a.base_currency_code@ == b.base_currency_code@
    &&& a.counter_currency_code@ == b.counter_currency_code@
    &&& addr_seq_eqv(a.arbitrator_node_addresses@, b.arbitrator_node_addresses@)
    &&& addr_seq_eqv(a.mediator_node_addresses@, b.mediator_node_addresses@)
    &&& a.payment_method_id@ == b.payment_method_id@
    &&& a.maker_payment_account_id@ == b.maker_payment_account_id@
    &&& a.offer_fee_payment_tx_id@ == b.offer_fee_payment_tx_id@
    &&& a.country_code@ == b.country_code@
    &&& str_seq_eqv(a.accepted_country_codes@, b.accepted_country_codes@)
    &&& a.bank_id@ == b.bank_id@
    &&& str_seq_eqv(a.accepted_bank_ids@, b.accepted_bank_ids@)
    &&& a.version_nr@ == b.version_nr@
    &&& a.block_height_at_offer_creation == b.block_height_at_offer_creation
    &&& a.tx_fee == b.tx_fee
    &&& a.maker_fee == b.maker_fee
    &&& a.is_currency_for_maker_fee_btc == b.is_currency_for_maker_fee_btc
    &&& a.buyer_security_deposit == b.buyer_security_deposit
    &&& a.seller_security_deposit == b.seller_security_deposit
    &&& a.max_trade_limit == b.max_trade_limit
    &&& a.max_trade_period == b.max_trade_period
    &&& map_seq_eqv(a.extra_data@, b.extra_data@)
    &&& a.protocol_version == b.protocol_version
}

/// Decodes an offer payload from a complete message body.  Exactly the
/// canonical encodings are accepted: decoding the canonical bytes of an
/// offer gives that offer back, field for field.
#[verifier::rlimit(100)]
#[verifier::spinoff_prover]
pub fn decode_offer_payload(data: &[u8]) -> (r: Option<OfferPayload>)
    ensures
        r matches Some(x) ==> offer_payload_bytes(x) == data@,
        forall|x: OfferPayload|
            data@ == #[trigger] offer_payload_bytes(x) ==> (r matches Some(y)
                && offer_payload_eqv(x, y)),
{
    proof {
        lemma_subrange_all(data@);
        assert forall|x: OfferPayload|
            data@ == #[trigger] offer_payload_bytes(x) implies data@.subrange(
            0,
            data@.len() as int,
        ) == offer_fields_from(x, 1) by {
            lemma_offer_fields_cat(x);
        }
    }
    let (g0, i0) = match decode_offer_identity(data, 0) {
        None => {
            proof {
                assert forall|x: OfferPayload| data@ != #[trigger] offer_payload_bytes(x) by {}
            }
            return None;
        },
        Some(p) => p,
    };
    let (g1, i1) = match decode_offer_terms(data, i0) {
        None => {
            proof {
                assert forall|x: OfferPayload| data@ != #[trigger] offer_payload_bytes(x) by {}
            }
            return None;
        },
        Some(p) => p,
    };
    let (g2, i2) = match decode_offer_agents(data, i1) {
        None => {
            proof {
                assert forall|x: OfferPayload| data@ != #[trigger] offer_payload_bytes(x) by {}
            }
            return None;
        },
        Some(p) => p,
    };
    let (g3, i3) = match decode_offer_markets(data, i2) {
        None => {
            proof {
                assert forall|x: OfferPayload| data@ != #[trigger] offer_payload_bytes(x) by {}
            }
            return None;
        },
        Some(p) => p,
    };
    let (g4, i4) = match decode_offer_fees(data, i3) {
        None => {
            proof {
                assert forall|x: OfferPayload| data@ != #[trigger] offer_payload_bytes(x) by {}
            }
            return None;
        },
        Some(p) => p,
    };
    let (g5, i5) = match decode_offer_limits(data, i4) {
        None => {
            proof {
                assert forall|x: OfferPayload| data@ != #[trigger] offer_payload_bytes(x) by {}
            }
            return None;
        },
        Some(p) => p,
    };
    if i5 != data.len() {
        proof {
            assert forall|x: OfferPayload| data@ != #[trigger] offer_payload_bytes(x) by {}
        }
        return None;
    }
    let o = OfferPayload { id: g0.id, date: g0.date, owner_node_address: g0.owner_node_address, pub_key_ring: g0.pub_key_ring, direction: g0.direction, price: g0.price, market_price_margin_bits: g1.market_price_margin_bits, use_market_based_price: g1.use_market_based_price, amount: g1.amount, min_amount: g1.min_amount, base_currency_code: g1.base_currency_code, counter_currency_code: g1.counter_currency_code, arbitrator_node_addresses: g2.arbitrator_node_addresses, mediator_node_addresses: g2.mediator_node_addresses, payment_method_id: g2.payment_method_id, maker_payment_account_id: g2.maker_payment_account_id, offer_fee_payment_tx_id: g2.offer_fee_payment_tx_id, country_code: g2.country_code, accepted_country_codes: g3.accepted_country_codes, bank_id: g3.bank_id, accepted_bank_ids: g3.accepted_bank_ids, version_nr: g3.version_nr, block_height_at_offer_creation: g4.block_height_at_offer_creation, tx_fee: g4.tx_fee, maker_fee: g4.maker_fee, is_currency_for_maker_fee_btc: g4.is_currency_for_maker_fee_btc, buyer_security_deposit: g4.buyer_security_deposit, seller_security_deposit: g5.seller_security_deposit, max_trade_limit: g5.max_trade_limit, max_trade_period: g5.max_trade_period, extra_data: g5.extra_data, protocol_version: g5.protocol_version };
    proof {
        lemma_subrange_split(data@, 0, i0 as int, i1 as int);
        lemma_subrange_split(data@, 0, i1 as int, i2 as int);
        lemma_subrange_split(data@, 0, i2 as int, i3 as int);
        lemma_subrange_split(data@, 0, i3 as int, i4 as int);
        lemma_subrange_split(data@, 0, i4 as int, i5 as int);
        lemma_subrange_all(data@);
        assert(offer_payload_bytes(o) == data@);
        assert forall|x: OfferPayload|
            data@ == #[trigger] offer_payload_bytes(x) implies offer_payload_eqv(x, o) by {}
    }
    Some(o)
}

/// The wire tag that opens the canonical bytes of a storage payload.
pub open spec fn sp_tag(p: StoragePayload) -> u64 {
    match p {
        StoragePayload::Alert(_) => 10,
        StoragePayload::Arbitrator(_) => 18,
        StoragePayload::Mediator(_) => 26,
        StoragePayload::Filter(_) => 34,
        StoragePayload::TradeStatistics(_) => 42,
        StoragePayload::MailboxStoragePayload(_) => 50,
        StoragePayload::OfferPayload(_) => 58,
        StoragePayload::TempProposalPayload(_) => 66,
        StoragePayload::RefundAgent(_) => 74,
    }
}

/// The canonical bytes of the variant carried inside a storage payload.
pub open spec fn sp_body(p: StoragePayload) -> Seq<u8> {
    match p {
        StoragePayload::Alert(x) => alert_bytes(x),
        StoragePayload::Arbitrator(x) => arbitrator_bytes(x),
        StoragePayload::Mediator(x) => mediator_bytes(x),
        StoragePayload::Filter(x) => filter_bytes(x),
        StoragePayload::TradeStatistics(x) => trade_statistics_bytes(x),
        StoragePayload::MailboxStoragePayload(x) => mailbox_bytes(x),
        StoragePayload::OfferPayload(x) => offer_payload_bytes(x),
        StoragePayload::TempProposalPayload(x) => temp_proposal_bytes(x),
        StoragePayload::RefundAgent(x) => refund_agent_bytes(x),
    }
}

/// View-level equality of two storage payloads: the same variant with
/// view-equal contents.
pub open spec fn storage_payload_eqv(a: StoragePayload, b: StoragePayload) -> bool {
    match (a, b) {
        (StoragePayload::Alert(p), StoragePayload::Alert(q)) => alert_eqv(p, q),
        (StoragePayload::Arbitrator(p), StoragePayload::Arbitrator(q)) => opt_node_address_eqv(
            p.node_address,
            q.node_address,
        ) && opt_pub_key_ring_eqv(p.pub_key_ring, q.pub_key_ring) && p.registration_date
            == q.registration_date,
        (StoragePayload::Mediator(p), StoragePayload::Mediator(q)) => opt_node_address_eqv(
            p.node_address,
            q.node_address,
        ) && opt_pub_key_ring_eqv(p.pub_key_ring, q.pub_key_ring) && p.registration_date
            == q.registration_date,
        (StoragePayload::Filter(p), StoragePayload::Filter(q)) => p.signature_as_base64@
            == q.signature_as_base64@ && p.owner_pub_key_bytes@ == q.owner_pub_key_bytes@
            && str_seq_eqv(p.banned_offer_ids@, q.banned_offer_ids@),
        (StoragePayload::TradeStatistics(p), StoragePayload::TradeStatistics(q)) => ts_eqv(p, q),
        (
            StoragePayload::MailboxStoragePayload(p),
            StoragePayload::MailboxStoragePayload(q),
        ) => p.prefixed_sealed_and_signed@ == q.prefixed_sealed_and_signed@
            && p.sender_pub_key_for_add_operation_bytes@
            == q.sender_pub_key_for_add_operation_bytes@
            && p.receiver_pub_key_for_remove_operation_bytes@
            == q.receiver_pub_key_for_remove_operation_bytes@,
        (StoragePayload::OfferPayload(p), StoragePayload::OfferPayload(q)) => offer_payload_eqv(
            p,
            q,
        ),
        (StoragePayload::TempProposalPayload(p), StoragePayload::TempProposalPayload(q)) => p.proposal@
            == q.proposal@ && p.owner_pub_key_encoded@ == q.owner_pub_key_encoded@,
        (StoragePayload::RefundAgent(p), StoragePayload::RefundAgent(q)) => opt_node_address_eqv(
            p.node_address,
            q.node_address,
        ) && opt_pub_key_ring_eqv(p.pub_key_ring, q.pub_key_ring) && p.registration_date
            == q.registration_date,
        _ => false,
    }
}

/// Decodes a storage payload: one tagged variant filling the whole input.
/// Exactly the canonical encodings are accepted, and decoding the
/// canonical bytes of a payload gives that payload back.
#[verifier::rlimit(100)]
#[verifier::spinoff_prover]
pub fn decode_storage_payload(data: &[u8]) -> (r: Option<StoragePayload>)
    ensures
        r matches Some(p) ==> storage_payload_bytes(p) == data@,
        forall|p: StoragePayload|
            data@ == #[trigger] storage_payload_bytes(p) ==> (r matches Some(q)
                && storage_payload_eqv(p, q)),
{
    proof {
        lemma_subrange_all(data@);
    }
    let rv = read_varint(data, 0);
    proof {
        assert forall|p: StoragePayload|
            data@ == #[trigger] storage_payload_bytes(p) implies (rv matches Some(pr) && pr.0
            == sp_tag(p) && data@.subrange(pr.1 as int, data@.len() as int) == len_delim(sp_body(p))
            + Seq::<u8>::empty() && data@.len() == varint_bytes(sp_tag(p)).len() + len_delim(
            sp_body(p),
        ).len()) by {
            assert(data@ == varint_bytes(sp_tag(p)) + len_delim(sp_body(p)));
            assert(data@.subrange(0, data@.len() as int) == varint_bytes(sp_tag(p)) + len_delim(
                sp_body(p),
            ));
            let k = varint_bytes(sp_tag(p)).len() as int;
            assert(data@.subrange(k, data@.len() as int) =~= len_delim(sp_body(p))
                + Seq::<u8>::empty());
        }
    }
    match rv {
        None => {
            proof {
                assert forall|p: StoragePayload|
                    data@ != #[trigger] storage_payload_bytes(p) by {}
            }
            None
        },
        Some((t, k)) => {
            let rl = read_len_prefixed(data, k);
            proof {
                assert forall|p: StoragePayload|
                    data@ == #[trigger] storage_payload_bytes(p) implies (rl matches Some(q) && q.0@
                    == sp_body(p) && q.1 == data@.len()) by {}
            }
            match rl {
                None => {
                    proof {
                        assert forall|p: StoragePayload|
                            data@ != #[trigger] storage_payload_bytes(p) by {}
                    }
                    None
                },
                Some((body, j)) => {
                    if j != data.len() {
                        proof {
                            assert forall|p: StoragePayload|
                                data@ != #[trigger] storage_payload_bytes(p) by {}
                        }
                        return None;
                    }
                    proof {
                        lemma_subrange_split(data@, 0, k as int, j as int);
                        lemma_subrange_all(data@);
                        assert forall|p: StoragePayload|
                            data@ == #[trigger] storage_payload_bytes(p) implies body@ == sp_body(
                            p,
                        ) && t == sp_tag(p) by {}
                    }
                    if t == 10 {
                        match decode_alert(body.as_slice()) {
                            None => {
                                proof {
                                    assert forall|p: StoragePayload|
                                        data@ != #[trigger] storage_payload_bytes(p) by {
                                        if data@ == storage_payload_bytes(p) {
                                            match p {
                                                StoragePayload::Alert(y) => {
                                                    assert(body@ == alert_bytes(y));
                                                },
                                                _ => {},
                                            }
                                        }
                                    }
                                }
                                None
                            },
                            Some(x) => {
                                proof {
                                    assert forall|p: StoragePayload|
                                        data@ == #[trigger] storage_payload_bytes(p)
                                        implies storage_payload_eqv(p, StoragePayload::Alert(x)) by {
                                        match p {
                                            StoragePayload::Alert(y) => {
                                                assert(body@ == alert_bytes(y));
                                            },
                                            _ => {},
                                        }
                                    }
                                }
                                Some(StoragePayload::Alert(x))
                            },
                        }
                    } else if t == 18 {
                        match decode_arbitrator(body.as_slice()) {
                            None => {
                                proof {
                                    assert forall|p: StoragePayload|
                                        data@ != #[trigger] storage_payload_bytes(p) by {
                                        if data@ == storage_payload_bytes(p) {
                                            match p {
                                                StoragePayload::Arbitrator(y) => {
                                                    assert(body@ == arbitrator_bytes(y));
                                                },
                                                _ => {},
                                            }
                                        }
                                    }
                                }
                                None
                            },
                            Some(x) => {
                                proof {
                                    assert forall|p: StoragePayload|
                                        data@ == #[trigger] storage_payload_bytes(p)
                                        implies storage_payload_eqv(
                                        p,
                                        StoragePayload::Arbitrator(x),
                                    ) by {
                                        match p {
                                            StoragePayload::Arbitrator(y) => {
                                                assert(body@ == arbitrator_bytes(y));
                                            },
                                            _ => {},
                                        }
                                    }
                                }
                                Some(StoragePayload::Arbitrator(x))
                            },
                        }
                    } else if t == 26 {
                        match decode_mediator(body.as_slice()) {
                            None => {
                                proof {
                                    assert forall|p: StoragePayload|
                                        data@ != #[trigger] storage_payload_bytes(p) by {
                                        if data@ == storage_payload_bytes(p) {
                                            match p {
                                                StoragePayload::Mediator(y) => {
                                                    assert(body@ == mediator_bytes(y));
                                                },
                                                _ => {},
                                            }
                                        }
                                    }
                                }
                                None
                            },
                            Some(x) => {
                                proof {
                                    assert forall|p: StoragePayload|
                                        data@ == #[trigger] storage_payload_bytes(p)
                                        implies storage_payload_eqv(
                                        p,
                                        StoragePayload::Mediator(x),
                                    ) by {
                                        match p {
                                            StoragePayload::Mediator(y) => {
                                                assert(body@ == mediator_bytes(y));
                                            },
                                            _ => {},
                                        }
                                    }
                                }
                                Some(StoragePayload::Mediator(x))
                            },
                        }
                    } else if t == 34 {
                        match decode_filter(body.as_slice()) {
                            None => {
                                proof {
                                    assert forall|p: StoragePayload|
                                        data@ != #[trigger] storage_payload_bytes(p) by {
                                        if data@ == storage_payload_bytes(p) {
                                            match p {
                                                StoragePayload::Filter(y) => {
                                                    assert(body@ == filter_bytes(y));
                                                },
                                                _ => {},
                                            }
                                        }
                                    }
                                }
                                None
                            },
                            Some(x) => {
                                proof {
                                    assert forall|p: StoragePayload|
                                        data@ == #[trigger] storage_payload_bytes(p)
                                        implies storage_payload_eqv(p, StoragePayload::Filter(x)) by {
                                        match p {
                                            StoragePayload::Filter(y) => {
                                                assert(body@ == filter_bytes(y));
                                            },
                                            _ => {},
                                        }
                                    }
                                }
                                Some(StoragePayload::Filter(x))
                            },
                        }
                    } else if t == 42 {
                        match decode_trade_statistics(body.as_slice()) {
                            None => {
                                proof {
                                    assert forall|p: StoragePayload|
                                        data@ != #[trigger] storage_payload_bytes(p) by {
                                        if data@ == storage_payload_bytes(p) {
                                            match p {
                                                StoragePayload::TradeStatistics(y) => {
                                                    assert(body@ == trade_statistics_bytes(y));
                                                },
                                                _ => {},
                                            }
                                        }
                                    }
                                }
                                None
                            },
                            Some(x) => {
                                proof {
                                    assert forall|p: StoragePayload|
                                        data@ == #[trigger] storage_payload_bytes(p)
                                        implies storage_payload_eqv(
                                        p,
                                        StoragePayload::TradeStatistics(x),
                                    ) by {
                                        match p {
                                            StoragePayload::TradeStatistics(y) => {
                                                assert(body@ == trade_statistics_bytes(y));
                                            },
                                            _ => {},
                                        }
                                    }
                                }
                                Some(StoragePayload::TradeStatistics(x))
                            },
                        }
                    } else if t == 50 {
                        match decode_mailbox(body.as_slice()) {
                            None => {
                                proof {
                                    assert forall|p: StoragePayload|
                                        data@ != #[trigger] storage_payload_bytes(p) by {
                                        if data@ == storage_payload_bytes(p) {
                                            match p {
                                                StoragePayload::MailboxStoragePayload(y) => {
                                                    assert(body@ == mailbox_bytes(y));
                                                },
                                                _ => {},
                                            }
                                        }
                                    }
                                }
                                None
                            },
                            Some(x) => {
                                proof {
                                    assert forall|p: StoragePayload|
                                        data@ == #[trigger] storage_payload_bytes(p)
                                        implies storage_payload_eqv(
                                        p,
                                        StoragePayload::MailboxStoragePayload(x),
                                    ) by {
                                        match p {
                                            StoragePayload::MailboxStoragePayload(y) => {
                                                assert(body@ == mailbox_bytes(y));
                                            },
                                            _ => {},
                                        }
                                    }
                                }
                                Some(StoragePayload::MailboxStoragePayload(x))
                            },
                        }
                    } else if t == 58 {
                        match decode_offer_payload(body.as_slice()) {
                            None => {
                                proof {
                                    assert forall|p: StoragePayload|
                                        data@ != #[trigger] storage_payload_bytes(p) by {
                                        if data@ == storage_payload_bytes(p) {
                                            match p {
                                                StoragePayload::OfferPayload(y) => {
                                                    assert(body@ == offer_payload_bytes(y));
                                                },
                                                _ => {},
                                            }
                                        }
                                    }
                                }
                                None
                            },
                            Some(x) => {
                                proof {
                                    assert forall|p: StoragePayload|
                                        data@ == #[trigger] storage_payload_bytes(p)
                                        implies storage_payload_eqv(
                                        p,
                                        StoragePayload::OfferPayload(x),
                                    ) by {
                                        match p {
                                            StoragePayload::OfferPayload(y) => {
                                                assert(body@ == offer_payload_bytes(y));
                                            },
                                            _ => {},
                                        }
                                    }
                                }
                                Some(StoragePayload::OfferPayload(x))
                            },
                        }
                    } else if t == 66 {
                        match decode_temp_proposal(body.as_slice()) {
                            None => {
                                proof {
                                    assert forall|p: StoragePayload|
                                        data@ != #[trigger] storage_payload_bytes(p) by {
                                        if data@ == storage_payload_bytes(p) {
                                            match p {
                                                StoragePayload::TempProposalPayload(y) => {
                                                    assert(body@ == temp_proposal_bytes(y));
                                                },
                                                _ => {},
                                            }
                                        }
                                    }
                                }
                                None
                            },
                            Some(x) => {
                                proof {
                                    assert forall|p: StoragePayload|
                                        data@ == #[trigger] storage_payload_bytes(p)
                                        implies storage_payload_eqv(
                                        p,
                                        StoragePayload::TempProposalPayload(x),
                                    ) by {
                                        match p {
                                            StoragePayload::TempProposalPayload(y) => {
                                                assert(body@ == temp_proposal_bytes(y));
                                            },
                                            _ => {},
                                        }
                                    }
                                }
                                Some(StoragePayload::TempProposalPayload(x))
                            },
                        }
                    } else if t == 74 {
                        match decode_refund_agent(body.as_slice()) {
                            None => {
                                proof {
                                    assert forall|p: StoragePayload|
                                        data@ != #[trigger] storage_payload_bytes(p) by {
                                        if data@ == storage_payload_bytes(p) {
                                            match p {
                                                StoragePayload::RefundAgent(y) => {
                                                    assert(body@ == refund_agent_bytes(y));
                                                },
                                                _ => {},
                                            }
                                        }
                                    }
                                }
                                None
                            },
                            Some(x) => {
                                proof {
                                    assert forall|p: StoragePayload|
                                        data@ == #[trigger] storage_payload_bytes(p)
                                        implies storage_payload_eqv(
                                        p,
                                        StoragePayload::RefundAgent(x),
                                    ) by {
                                        match p {
                                            StoragePayload::RefundAgent(y) => {
                                                assert(body@ == refund_agent_bytes(y));
                                            },
                                            _ => {},
                                        }
                                    }
                                }
                                Some(StoragePayload::RefundAgent(x))
                            },
                        }
                    } else {
                        proof {
                            assert forall|p: StoragePayload|
                                data@ != #[trigger] storage_payload_bytes(p) by {}
                        }
                        None
                    }
                },
            }
        },
    }
}

impl StoragePayload {
    /// Decodes a storage payload from its canonical wire bytes; rejects
    /// anything that would not re-encode to the same bytes, and gives
    /// back, field for field, the payload whose canonical bytes the input
    /// is.
    pub fn decode(data: &[u8]) -> (r: Result<StoragePayload, DecodeError>)
        ensures
            r matches Ok(p) ==> storage_payload_bytes(p) == data@,
            forall|p: StoragePayload|
                data@ == #[trigger] storage_payload_bytes(p) ==> (r matches Ok(q)
                    && storage_payload_eqv(p, q)),
    {
        match decode_storage_payload(data) {
            Some(p) => Ok(p),
            None => Err(DecodeError),
        }
    }
}

} // verus!
