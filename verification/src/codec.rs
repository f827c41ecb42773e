//! The persistence codec: a compact, self-describing binary format over the
//! cache's value graph.
//!
//! The format is a typed map/array encoding. Scalars carry a tag byte and a
//! fixed-width big-endian value; byte strings carry a tag and a length;
//! arrays and maps carry a tag and an element count. A question's name is a
//! sequence of length-prefixed label byte strings with a final empty string
//! marking a fully qualified name; the record type is its 16-bit wire code.
//! Non-persistent state — the reading flag — is excluded.

use vstd::prelude::*;

use crate::cache::BucketV;
use crate::cache::EntriesV;
use crate::error::ErrorKind;
use crate::ip::IpAddress;
use crate::name::copy_range;
use crate::name::push_bytes;
use crate::name::wire_len_of;
use crate::name::DnsName;
use crate::name::NameV;
use crate::net::chronological;
use crate::net::Failure;
use crate::net::ResponseV;
use crate::net::RetriedResponse;
use crate::question::EdnsConfig;
use crate::question::EdnsV;
use crate::question::Protocol;
use crate::question::Question;
use crate::question::QuestionV;

verus! {

// ---------------------------------------------------------------------
// big-endian scalars
// ---------------------------------------------------------------------
/// 256 to the `n`.
pub open spec fn pow256(n: nat) -> nat
    decreases n,
{
    if n == 0 {
        1
    } else {
        256 * pow256((n - 1) as nat)
    }
}

/// The `n`-byte big-endian encoding of `x`.
pub open spec fn be_bytes(x: nat, n: nat) -> Seq<u8>
    decreases n,
{
    if n == 0 {
        Seq::empty()
    } else {
        be_bytes(x / 256, (n - 1) as nat) + seq![(x % 256) as u8]
    }
}

/// The value a big-endian byte string denotes.
pub open spec fn be_val(s: Seq<u8>) -> nat
    decreases s.len(),
{
    if s.len() == 0 {
        0
    } else {
        (be_val(s.drop_last()) * 256 + s.last()) as nat
    }
}

// ---------------------------------------------------------------------
// spec encoders
// ---------------------------------------------------------------------
/// A tagged unsigned byte.
pub open spec fn enc_u8v(x: u8) -> Seq<u8> {
    seq![0xccu8] + be_bytes(x as nat, 1)
}

/// A tagged 16-bit unsigned value.
pub open spec fn enc_u16v(x: u16) -> Seq<u8> {
    seq![0xcdu8] + be_bytes(x as nat, 2)
}

/// A tagged 32-bit unsigned value.
pub open spec fn enc_u32v(x: u32) -> Seq<u8> {
    seq![0xceu8] + be_bytes(x as nat, 4)
}

/// A tagged 64-bit unsigned value.
pub open spec fn enc_u64v(x: u64) -> Seq<u8> {
    seq![0xcfu8] + be_bytes(x as nat, 8)
}

/// A boolean tag.
pub open spec fn enc_boolv(b: bool) -> Seq<u8> {
    if b {
        seq![0xc3u8]
    } else {
        seq![0xc2u8]
    }
}

/// A short byte string: tag, one length byte, the bytes.
pub open spec fn enc_bin8(b: Seq<u8>) -> Seq<u8> {
    seq![0xc4u8] + be_bytes(b.len() as nat, 1) + b
}

/// A byte string: tag, four length bytes, the bytes.
pub open spec fn enc_bin32(b: Seq<u8>) -> Seq<u8> {
    seq![0xc6u8] + be_bytes(b.len() as nat, 4) + b
}

/// The labels of a name, each a short byte string.
pub open spec fn enc_labels(ls: Seq<Seq<u8>>) -> Seq<u8>
    decreases ls.len(),
{
    if ls.len() == 0 {
        Seq::empty()
    } else {
        enc_labels(ls.drop_last()) + enc_bin8(ls.last())
    }
}

/// A name: an array of its labels, with a final empty string when the name
/// is fully qualified.
pub open spec fn enc_name(n: NameV) -> Seq<u8> {
    let count: nat = n.labels.len() + if n.fqdn {
        1nat
    } else {
        0nat
    };
    seq![0xdcu8] + be_bytes(count, 2) + enc_labels(n.labels) + if n.fqdn {
        enc_bin8(Seq::empty())
    } else {
        Seq::empty()
    }
}

/// Optional EDNS settings: nil, or a five-element array.
pub open spec fn enc_edns(e: Option<EdnsV>) -> Seq<u8> {
    match e {
        None => seq![0xc0u8],
        Some(c) => seq![0x95u8] + enc_u8v(c.version) + enc_boolv(c.dnssec_ok) + enc_u16v(
            c.max_payload,
        ) + enc_u16v(c.option_code) + enc_bin32(c.option_value),
    }
}

/// A question: a five-element array of name, record type, transport code,
/// recursion flag and EDNS settings.
pub open spec fn enc_question(q: QuestionV) -> Seq<u8> {
    seq![0x95u8] + enc_name(q.qname) + enc_u16v(q.qtype) + enc_u8v(q.proto.spec_code())
        + enc_boolv(q.recursion_desired) + enc_edns(q.edns_config)
}

/// A server address: its four or sixteen big-endian octets as a short byte
/// string; the length tells the families apart.
pub open spec fn enc_ip(s: IpAddress) -> Seq<u8> {
    match s {
        IpAddress::V4(x) => enc_bin8(be_bytes(x as nat, 4)),
        IpAddress::V6(x) => enc_bin8(be_bytes(x as nat, 16)),
    }
}

/// One failed attempt: a three-element array.
pub open spec fn enc_failure(f: Failure) -> Seq<u8> {
    seq![0x93u8] + enc_u64v(f.query_start) + enc_u32v(f.query_duration) + enc_u8v(
        f.kind.spec_code() as u8,
    )
}

/// The failure items, in order.
pub open spec fn enc_failure_items(fs: Seq<Failure>) -> Seq<u8>
    decreases fs.len(),
{
    if fs.len() == 0 {
        Seq::empty()
    } else {
        enc_failure_items(fs.drop_last()) + enc_failure(fs.last())
    }
}

/// The failure list: an array of failures.
pub open spec fn enc_failures(fs: Seq<Failure>) -> Seq<u8> {
    seq![0xdcu8] + be_bytes(fs.len() as nat, 2) + enc_failure_items(fs)
}

/// A final outcome: a two-element array tagged zero for a received packet
/// (kept byte-for-byte) or one for an error kind.
pub open spec fn enc_outcome(o: Result<Seq<u8>, ErrorKind>) -> Seq<u8> {
    match o {
        Ok(bytes) => seq![0x92u8] + enc_u8v(0) + enc_bin32(bytes),
        Err(k) => seq![0x92u8] + enc_u8v(1) + enc_u8v(k.spec_code() as u8),
    }
}

/// A stored record: a four-element array of failures, start, duration and
/// outcome.
pub open spec fn enc_response(r: ResponseV) -> Seq<u8> {
    seq![0x94u8] + enc_failures(r.failures) + enc_u64v(r.started) + enc_u32v(r.duration)
        + enc_outcome(r.outcome)
}

/// The server/record pairs of one bucket, in order.
pub open spec fn enc_bucket_items(b: BucketV) -> Seq<u8>
    decreases b.len(),
{
    if b.len() == 0 {
        Seq::empty()
    } else {
        enc_bucket_items(b.drop_last()) + enc_ip(b.last().0) + enc_response(b.last().1)
    }
}

/// A bucket: a map from server to record.
pub open spec fn enc_bucket(b: BucketV) -> Seq<u8> {
    seq![0xdfu8] + be_bytes(b.len() as nat, 4) + enc_bucket_items(b)
}

/// The question/bucket pairs of the store, in order.
pub open spec fn enc_entry_items(es: EntriesV) -> Seq<u8>
    decreases es.len(),
{
    if es.len() == 0 {
        Seq::empty()
    } else {
        enc_entry_items(es.drop_last()) + enc_question(es.last().0) + enc_bucket(es.last().1)
    }
}

/// The whole store: a map from question to bucket. This is the on-disk
/// form of a cache; the reading flag is not persisted.
pub open spec fn enc_entries(es: EntriesV) -> Seq<u8> {
    seq![0xdfu8] + be_bytes(es.len() as nat, 4) + enc_entry_items(es)
}

// ---------------------------------------------------------------------
// spec parsers
//
// Each parser takes the byte string and a position and returns the parsed
// value with the position after it, or nothing when the bytes at the
// position are not an encoding. Together they define exactly which byte
// strings load.
// ---------------------------------------------------------------------
/// Parses a tagged unsigned byte.
pub open spec fn sp_u8v(b: Seq<u8>, i: int) -> Option<(u8, int)> {
    if 0 <= i && i + 2 <= b.len() && b[i] == 0xccu8 {
        Some((b[i + 1], i + 2))
    } else {
        None
    }
}

/// Parses a tagged 16-bit unsigned value.
pub open spec fn sp_u16v(b: Seq<u8>, i: int) -> Option<(u16, int)> {
    if 0 <= i && i + 3 <= b.len() && b[i] == 0xcdu8 {
        Some((be_val(b.subrange(i + 1, i + 3)) as u16, i + 3))
    } else {
        None
    }
}

/// Parses a tagged 32-bit unsigned value.
pub open spec fn sp_u32v(b: Seq<u8>, i: int) -> Option<(u32, int)> {
    if 0 <= i && i + 5 <= b.len() && b[i] == 0xceu8 {
        Some((be_val(b.subrange(i + 1, i + 5)) as u32, i + 5))
    } else {
        None
    }
}

/// Parses a tagged 64-bit unsigned value.
pub open spec fn sp_u64v(b: Seq<u8>, i: int) -> Option<(u64, int)> {
    if 0 <= i && i + 9 <= b.len() && b[i] == 0xcfu8 {
        Some((be_val(b.subrange(i + 1, i + 9)) as u64, i + 9))
    } else {
        None
    }
}

/// Parses a boolean tag.
pub open spec fn sp_boolv(b: Seq<u8>, i: int) -> Option<(bool, int)> {
    if 0 <= i && i + 1 <= b.len() && (b[i] == 0xc2u8 || b[i] == 0xc3u8) {
        Some((b[i] == 0xc3u8, i + 1))
    } else {
        None
    }
}

/// Parses a short byte string.
pub open spec fn sp_bin8(b: Seq<u8>, i: int) -> Option<(Seq<u8>, int)> {
    if 0 <= i && i + 2 <= b.len() && b[i] == 0xc4u8 {
        let l = b[i + 1] as int;
        if i + 2 + l <= b.len() {
            Some((b.subrange(i + 2, i + 2 + l), i + 2 + l))
        } else {
            None
        }
    } else {
        None
    }
}

/// Parses a byte string with a four-byte length.
pub open spec fn sp_bin32(b: Seq<u8>, i: int) -> Option<(Seq<u8>, int)> {
    if 0 <= i && i + 5 <= b.len() && b[i] == 0xc6u8 {
        let l = be_val(b.subrange(i + 1, i + 5)) as int;
        if i + 5 + l <= b.len() {
            Some((b.subrange(i + 5, i + 5 + l), i + 5 + l))
        } else {
            None
        }
    } else {
        None
    }
}

/// Parses `count` consecutive short byte strings.
pub open spec fn sp_labels(b: Seq<u8>, i: int, count: nat) -> Option<(Seq<Seq<u8>>, int)>
    decreases count,
{
    if count == 0 {
        Some((Seq::empty(), i))
    } else {
        match sp_bin8(b, i) {
            None => None,
            Some((l, j)) => match sp_labels(b, j, (count - 1) as nat) {
                None => None,
                Some((rest, k)) => Some((seq![l] + rest, k)),
            },
        }
    }
}

/// Parses a name: its label array, with a final empty string denoting a
/// fully qualified name; labels must be 1 to 63 bytes and the name must fit
/// the wire limit.
pub open spec fn sp_name(b: Seq<u8>, i: int) -> Option<(NameV, int)> {
    if 0 <= i && i + 3 <= b.len() && b[i] == 0xdcu8 {
        let count = be_val(b.subrange(i + 1, i + 3));
        match sp_labels(b, i + 3, count) {
            None => None,
            Some((ls, j)) => {
                let fqdn = ls.len() > 0 && ls.last().len() == 0;
                let labels = if fqdn {
                    ls.drop_last()
                } else {
                    ls
                };
                if (NameV { labels, fqdn }).wf() {
                    Some((NameV { labels, fqdn }, j))
                } else {
                    None
                }
            },
        }
    } else {
        None
    }
}

/// Parses optional EDNS settings.
pub open spec fn sp_edns(b: Seq<u8>, i: int) -> Option<(Option<EdnsV>, int)> {
    if 0 <= i && i + 1 <= b.len() && b[i] == 0xc0u8 {
        Some((None, i + 1))
    } else if 0 <= i && i + 1 <= b.len() && b[i] == 0x95u8 {
        match sp_u8v(b, i + 1) {
            None => None,
            Some((version, i2)) => match sp_boolv(b, i2) {
                None => None,
                Some((dnssec_ok, i3)) => match sp_u16v(b, i3) {
                    None => None,
                    Some((max_payload, i4)) => match sp_u16v(b, i4) {
                        None => None,
                        Some((option_code, i5)) => match sp_bin32(b, i5) {
                            None => None,
                            Some((option_value, i6)) => Some(
                                (
                                    Some(
                                        EdnsV {
                                            version,
                                            dnssec_ok,
                                            max_payload,
                                            option_code,
                                            option_value,
                                        },
                                    ),
                                    i6,
                                ),
                            ),
                        },
                    },
                },
            },
        }
    } else {
        None
    }
}

/// Parses a transport code.
pub open spec fn sp_proto(b: Seq<u8>, i: int) -> Option<(Protocol, int)> {
    match sp_u8v(b, i) {
        None => None,
        Some((c, j)) => if c == 1 {
            Some((Protocol::Udp, j))
        } else if c == 2 {
            Some((Protocol::Tcp, j))
        } else {
            None
        },
    }
}

/// Parses a question.
pub open spec fn sp_question(b: Seq<u8>, i: int) -> Option<(QuestionV, int)> {
    if 0 <= i && i + 1 <= b.len() && b[i] == 0x95u8 {
        match sp_name(b, i + 1) {
            None => None,
            Some((qname, i2)) => match sp_u16v(b, i2) {
                None => None,
                Some((qtype, i3)) => match sp_proto(b, i3) {
                    None => None,
                    Some((proto, i4)) => match sp_boolv(b, i4) {
                        None => None,
                        Some((recursion_desired, i5)) => match sp_edns(b, i5) {
                            None => None,
                            Some((edns_config, i6)) => Some(
                                (
                                    QuestionV {
                                        qname,
                                        qtype,
                                        proto,
                                        recursion_desired,
                                        edns_config,
                                    },
                                    i6,
                                ),
                            ),
                        },
                    },
                },
            },
        }
    } else {
        None
    }
}

/// Parses a server address from its octets.
pub open spec fn sp_ip(b: Seq<u8>, i: int) -> Option<(IpAddress, int)> {
    match sp_bin8(b, i) {
        None => None,
        Some((octets, j)) => if octets.len() == 4 {
            Some((IpAddress::V4(be_val(octets) as u32), j))
        } else if octets.len() == 16 {
            Some((IpAddress::V6(be_val(octets) as u128), j))
        } else {
            None
        },
    }
}

/// Parses an error kind from its stable code.
pub open spec fn sp_kind(b: Seq<u8>, i: int) -> Option<(ErrorKind, int)> {
    match sp_u8v(b, i) {
        None => None,
        Some((c, j)) => if c == 1 {
            Some((ErrorKind::Internal, j))
        } else if c == 2 {
            Some((ErrorKind::Io, j))
        } else if c == 3 {
            Some((ErrorKind::Protocol, j))
        } else if c == 4 {
            Some((ErrorKind::Timeout, j))
        } else if c == 5 {
            Some((ErrorKind::Lock, j))
        } else {
            None
        },
    }
}

/// Parses one failed attempt.
pub open spec fn sp_failure(b: Seq<u8>, i: int) -> Option<(Failure, int)> {
    if 0 <= i && i + 1 <= b.len() && b[i] == 0x93u8 {
        match sp_u64v(b, i + 1) {
            None => None,
            Some((query_start, i2)) => match sp_u32v(b, i2) {
                None => None,
                Some((query_duration, i3)) => match sp_kind(b, i3) {
                    None => None,
                    Some((kind, i4)) => Some(
                        (Failure { query_start, query_duration, kind }, i4),
                    ),
                },
            },
        }
    } else {
        None
    }
}

/// Parses `count` consecutive failures.
pub open spec fn sp_failure_items(b: Seq<u8>, i: int, count: nat) -> Option<(Seq<Failure>, int)>
    decreases count,
{
    if count == 0 {
        Some((Seq::empty(), i))
    } else {
        match sp_failure(b, i) {
            None => None,
            Some((f, j)) => match sp_failure_items(b, j, (count - 1) as nat) {
                None => None,
                Some((rest, k)) => Some((seq![f] + rest, k)),
            },
        }
    }
}

/// Parses a failure list; it must be chronological.
pub open spec fn sp_failures(b: Seq<u8>, i: int) -> Option<(Seq<Failure>, int)> {
    if 0 <= i && i + 3 <= b.len() && b[i] == 0xdcu8 {
        let count = be_val(b.subrange(i + 1, i + 3));
        match sp_failure_items(b, i + 3, count) {
            None => None,
            Some((fs, j)) => if chronological(fs) && fs.len() <= u16::MAX {
                Some((fs, j))
            } else {
                None
            },
        }
    } else {
        None
    }
}

/// Parses a final outcome.
pub open spec fn sp_outcome(b: Seq<u8>, i: int) -> Option<(Result<Seq<u8>, ErrorKind>, int)> {
    if 0 <= i && i + 1 <= b.len() && b[i] == 0x92u8 {
        match sp_u8v(b, i + 1) {
            None => None,
            Some((t, i2)) => if t == 0 {
                match sp_bin32(b, i2) {
                    None => None,
                    Some((bytes, i3)) => Some((Ok(bytes), i3)),
                }
            } else if t == 1 {
                match sp_kind(b, i2) {
                    None => None,
                    Some((k, i3)) => Some((Err(k), i3)),
                }
            } else {
                None
            },
        }
    } else {
        None
    }
}

/// Parses a stored record.
pub open spec fn sp_response(b: Seq<u8>, i: int) -> Option<(ResponseV, int)> {
    if 0 <= i && i + 1 <= b.len() && b[i] == 0x94u8 {
        match sp_failures(b, i + 1) {
            None => None,
            Some((failures, i2)) => match sp_u64v(b, i2) {
                None => None,
                Some((started, i3)) => match sp_u32v(b, i3) {
                    None => None,
                    Some((duration, i4)) => match sp_outcome(b, i4) {
                        None => None,
                        Some((outcome, i5)) => Some(
                            (ResponseV { failures, started, duration, outcome }, i5),
                        ),
                    },
                },
            },
        }
    } else {
        None
    }
}

/// Parses `count` consecutive server/record pairs.
pub open spec fn sp_bucket_items(b: Seq<u8>, i: int, count: nat) -> Option<(BucketV, int)>
    decreases count,
{
    if count == 0 {
        Some((Seq::empty(), i))
    } else {
        match sp_ip(b, i) {
            None => None,
            Some((s, j)) => match sp_response(b, j) {
                None => None,
                Some((r, j2)) => match sp_bucket_items(b, j2, (count - 1) as nat) {
                    None => None,
                    Some((rest, k)) => Some((seq![(s, r)] + rest, k)),
                },
            },
        }
    }
}

/// Pairwise-distinct servers in a bucket.
pub open spec fn distinct_bucket_keys(bk: BucketV) -> bool {
    forall|x: int, y: int| 0 <= x < y < bk.len() ==> (#[trigger] bk[x]).0 != (#[trigger] bk[y]).0
}

/// Parses a bucket; its servers must be distinct.
pub open spec fn sp_bucket(b: Seq<u8>, i: int) -> Option<(BucketV, int)> {
    if 0 <= i && i + 5 <= b.len() && b[i] == 0xdfu8 {
        let count = be_val(b.subrange(i + 1, i + 5));
        match sp_bucket_items(b, i + 5, count) {
            None => None,
            Some((bk, j)) => if distinct_bucket_keys(bk) && bk.len() <= u32::MAX {
                Some((bk, j))
            } else {
                None
            },
        }
    } else {
        None
    }
}

/// Parses `count` consecutive question/bucket pairs.
pub open spec fn sp_entry_items(b: Seq<u8>, i: int, count: nat) -> Option<(EntriesV, int)>
    decreases count,
{
    if count == 0 {
        Some((Seq::empty(), i))
    } else {
        match sp_question(b, i) {
            None => None,
            Some((q, j)) => match sp_bucket(b, j) {
                None => None,
                Some((bk, j2)) => match sp_entry_items(b, j2, (count - 1) as nat) {
                    None => None,
                    Some((rest, k)) => Some((seq![(q, bk)] + rest, k)),
                },
            },
        }
    }
}

/// Pairwise-distinct questions in a store.
pub open spec fn distinct_question_keys(es: EntriesV) -> bool {
    forall|x: int, y: int| 0 <= x < y < es.len() ==> (#[trigger] es[x]).0 != (#[trigger] es[y]).0
}

/// Parses the whole store; its questions must be distinct.
pub open spec fn sp_entries(b: Seq<u8>, i: int) -> Option<(EntriesV, int)> {
    if 0 <= i && i + 5 <= b.len() && b[i] == 0xdfu8 {
        let count = be_val(b.subrange(i + 1, i + 5));
        match sp_entry_items(b, i + 5, count) {
            None => None,
            Some((es, j)) => if distinct_question_keys(es) && es.len() <= u32::MAX {
                Some((es, j))
            } else {
                None
            },
        }
    } else {
        None
    }
}

/// The byte strings that load as a cache: exactly the ones a whole-store
/// encoding fills end to end.
pub open spec fn sp_cache(b: Seq<u8>) -> Option<EntriesV> {
    match sp_entries(b, 0) {
        None => None,
        Some((es, j)) => if j == b.len() {
            Some(es)
        } else {
            None
        },
    }
}

// ---------------------------------------------------------------------
// round trip: every encoding parses back to the value it encodes
// ---------------------------------------------------------------------
/// A big-endian encoding has its width.
pub proof fn lemma_be_bytes_len(x: nat, n: nat)
    ensures
        be_bytes(x, n).len() == n,
    decreases n,
{
    if n > 0 {
        lemma_be_bytes_len(x / 256, (n - 1) as nat);
    }
}

/// A value below the width's range encodes and decodes to itself.
pub proof fn lemma_be_val_of_bytes(x: nat, n: nat)
    requires
        x < pow256(n),
    ensures
        be_val(be_bytes(x, n)) == x,
    decreases n,
{
    if n == 0 {
    } else {
        let s = be_bytes(x, n);
        lemma_be_bytes_len(x / 256, (n - 1) as nat);
        assert(s.drop_last() =~= be_bytes(x / 256, (n - 1) as nat));
        assert(s.last() == x % 256);
        assert(x / 256 < pow256((n - 1) as nat)) by (nonlinear_arith)
            requires
                x < 256 * pow256((n - 1) as nat),
        ;
        lemma_be_val_of_bytes(x / 256, (n - 1) as nat);
        assert(be_val(s) == (x / 256) * 256 + x % 256);
        assert((x / 256) * 256 + x % 256 == x) by (nonlinear_arith);
    }
}

/// Concrete range sizes for the widths in use.
pub proof fn lemma_pow256_values()
    ensures
        pow256(1) == 0x100,
        pow256(2) == 0x10000,
        pow256(4) == 0x1_0000_0000,
        pow256(8) == 0x1_0000_0000_0000_0000,
        pow256(16) == 0x1_0000_0000_0000_0000_0000_0000_0000_0000,
{
    assert(pow256(0) == 1);
    assert(pow256(1) == 0x100);
    assert(pow256(2) == 0x10000);
    assert(pow256(3) == 0x100_0000);
    assert(pow256(4) == 0x1_0000_0000);
    assert(pow256(5) == 0x100_0000_0000);
    assert(pow256(6) == 0x1_0000_0000_0000);
    assert(pow256(7) == 0x100_0000_0000_0000);
    assert(pow256(8) == 0x1_0000_0000_0000_0000);
    assert(pow256(9) == 0x100_0000_0000_0000_0000);
    assert(pow256(10) == 0x1_0000_0000_0000_0000_0000);
    assert(pow256(11) == 0x100_0000_0000_0000_0000_0000);
    assert(pow256(12) == 0x1_0000_0000_0000_0000_0000_0000);
    assert(pow256(13) == 0x100_0000_0000_0000_0000_0000_0000);
    assert(pow256(14) == 0x1_0000_0000_0000_0000_0000_0000_0000);
    assert(pow256(15) == 0x100_0000_0000_0000_0000_0000_0000_0000);
    assert(pow256(16) == 0x1_0000_0000_0000_0000_0000_0000_0000_0000);
}

/// A byte string's value lies below its width's range.
pub proof fn lemma_be_val_bound(s: Seq<u8>)
    ensures
        be_val(s) < pow256(s.len() as nat),
    decreases s.len(),
{
    if s.len() == 0 {
    } else {
        lemma_be_val_bound(s.drop_last());
        let p = pow256((s.len() - 1) as nat);
        assert(be_val(s.drop_last()) * 256 + s.last() < 256 * p) by (nonlinear_arith)
            requires
                be_val(s.drop_last()) < p,
                s.last() < 256,
        ;
    }
}

/// Splits knowledge of a two-part window into knowledge of each part.
pub proof fn lemma_split_prefix(b: Seq<u8>, i: int, x: Seq<u8>, y: Seq<u8>)
    requires
        0 <= i,
        i + x.len() + y.len() <= b.len(),
        b.subrange(i, i + x.len() + y.len()) == x + y,
    ensures
        b.subrange(i, i + x.len()) == x,
        b.subrange(i + x.len(), i + x.len() + y.len()) == y,
{
    let w = b.subrange(i, i + x.len() + y.len());
    assert forall|k: int| 0 <= k < x.len() implies b[i + k] == x[k] by {
        assert(w[k] == (x + y)[k]);
    }
    assert forall|k: int| 0 <= k < y.len() implies b[i + x.len() + k] == y[k] by {
        assert(w[x.len() + k] == (x + y)[x.len() + k]);
    }
    assert(b.subrange(i, i + x.len()) =~= x);
    assert(b.subrange(i + x.len(), i + x.len() + y.len()) =~= y);
}

/// A window on an encoding pins the bytes it starts with.
pub proof fn lemma_window_bytes(b: Seq<u8>, i: int, e: Seq<u8>)
    requires
        0 <= i,
        i + e.len() <= b.len(),
        b.subrange(i, i + e.len()) == e,
    ensures
        forall|k: int| 0 <= k < e.len() ==> b[i + k] == e[k],
        e.len() > 0 ==> b[i] == e[0],
{
    assert forall|k: int| 0 <= k < e.len() implies b[i + k] == e[k] by {
        assert(b.subrange(i, i + e.len())[k] == e[k]);
    }
    if e.len() > 0 {
        assert(b.subrange(i, i + e.len())[0] == e[0]);
    }
}

/// The bytes from `i` in `b` start with the encoding `e`.
pub open spec fn window(b: Seq<u8>, i: int, e: Seq<u8>) -> bool {
    &&& 0 <= i
    &&& i + e.len() <= b.len()
    &&& b.subrange(i, i + e.len()) == e
}

proof fn lemma_rt_u8v(b: Seq<u8>, i: int, x: u8)
    requires
        window(b, i, enc_u8v(x)),
    ensures
        sp_u8v(b, i) == Some((x, i + enc_u8v(x).len())),
{
    let e = enc_u8v(x);
    assert(be_bytes(x as nat, 1) =~= seq![x]) by {
        assert(x as nat % 256 == x as nat);
        assert(be_bytes(x as nat / 256, 0) =~= Seq::<u8>::empty());
    }
    assert(e =~= seq![0xccu8, x]);
    lemma_window_bytes(b, i, e);
    assert(b[i] == 0xccu8);
    assert(b[i + 1] == x);
}

proof fn lemma_rt_u16v(b: Seq<u8>, i: int, x: u16)
    requires
        window(b, i, enc_u16v(x)),
    ensures
        sp_u16v(b, i) == Some((x, i + enc_u16v(x).len())),
{
    let w = be_bytes(x as nat, 2);
    lemma_be_bytes_len(x as nat, 2);
    lemma_split_prefix(b, i, seq![0xcdu8], w);
    lemma_window_bytes(b, i, seq![0xcdu8]);
    assert(b[i] == 0xcdu8);
    assert(b.subrange(i + 1, i + 3) == w);
    lemma_pow256_values();
    lemma_be_val_of_bytes(x as nat, 2);
}

proof fn lemma_rt_u32v(b: Seq<u8>, i: int, x: u32)
    requires
        window(b, i, enc_u32v(x)),
    ensures
        sp_u32v(b, i) == Some((x, i + enc_u32v(x).len())),
{
    let w = be_bytes(x as nat, 4);
    lemma_be_bytes_len(x as nat, 4);
    lemma_split_prefix(b, i, seq![0xceu8], w);
    lemma_window_bytes(b, i, seq![0xceu8]);
    assert(b[i] == 0xceu8);
    assert(b.subrange(i + 1, i + 5) == w);
    lemma_pow256_values();
    lemma_be_val_of_bytes(x as nat, 4);
}

proof fn lemma_rt_u64v(b: Seq<u8>, i: int, x: u64)
    requires
        window(b, i, enc_u64v(x)),
    ensures
        sp_u64v(b, i) == Some((x, i + enc_u64v(x).len())),
{
    let w = be_bytes(x as nat, 8);
    lemma_be_bytes_len(x as nat, 8);
    lemma_split_prefix(b, i, seq![0xcfu8], w);
    lemma_window_bytes(b, i, seq![0xcfu8]);
    assert(b[i] == 0xcfu8);
    assert(b.subrange(i + 1, i + 9) == w);
    lemma_pow256_values();
    lemma_be_val_of_bytes(x as nat, 8);
}

proof fn lemma_rt_boolv(b: Seq<u8>, i: int, x: bool)
    requires
        window(b, i, enc_boolv(x)),
    ensures
        sp_boolv(b, i) == Some((x, i + enc_boolv(x).len())),
{
    lemma_window_bytes(b, i, enc_boolv(x));
}

proof fn lemma_rt_bin8(b: Seq<u8>, i: int, s: Seq<u8>)
    requires
        window(b, i, enc_bin8(s)),
        s.len() <= 255,
    ensures
        sp_bin8(b, i) == Some((s, i + enc_bin8(s).len())),
{
    let lenb = be_bytes(s.len() as nat, 1);
    assert(lenb =~= seq![s.len() as u8]) by {
        assert(s.len() as nat % 256 == s.len());
        assert(be_bytes(s.len() as nat / 256, 0) =~= Seq::<u8>::empty());
    }
    let head = seq![0xc4u8] + lenb;
    assert(enc_bin8(s) =~= head + s);
    lemma_split_prefix(b, i, head, s);
    lemma_window_bytes(b, i, head);
    assert(b[i] == 0xc4u8);
    assert(head[1] == s.len() as u8);
    assert(b[i + 1] == s.len() as u8);
    assert(b.subrange(i + 2, i + 2 + s.len()) == s);
}

proof fn lemma_rt_bin32(b: Seq<u8>, i: int, s: Seq<u8>)
    requires
        window(b, i, enc_bin32(s)),
        s.len() <= u32::MAX,
    ensures
        sp_bin32(b, i) == Some((s, i + enc_bin32(s).len())),
{
    let lenb = be_bytes(s.len() as nat, 4);
    lemma_be_bytes_len(s.len() as nat, 4);
    let head = seq![0xc6u8] + lenb;
    assert(enc_bin32(s) =~= head + s);
    lemma_split_prefix(b, i, head, s);
    lemma_split_prefix(b, i, seq![0xc6u8], lenb);
    lemma_window_bytes(b, i, seq![0xc6u8]);
    assert(b[i] == 0xc6u8);
    assert(b.subrange(i + 1, i + 5) == lenb);
    lemma_pow256_values();
    lemma_be_val_of_bytes(s.len() as nat, 4);
    assert(b.subrange(i + 5, i + 5 + s.len()) == s);
}

/// The label list encoding, unfolded at the front.
proof fn lemma_enc_labels_front(ls: Seq<Seq<u8>>)
    requires
        ls.len() > 0,
    ensures
        enc_labels(ls) == enc_bin8(ls[0]) + enc_labels(ls.drop_first()),
    decreases ls.len(),
{
    if ls.len() == 1 {
        assert(ls.drop_last() =~= Seq::<Seq<u8>>::empty());
        assert(ls.drop_first() =~= Seq::<Seq<u8>>::empty());
        assert(enc_labels(ls) =~= enc_bin8(ls[0]) + enc_labels(ls.drop_first()));
    } else {
        lemma_enc_labels_front(ls.drop_last());
        assert(ls.drop_last()[0] == ls[0]);
        assert(ls.drop_last().drop_first() =~= ls.drop_first().drop_last());
        assert(ls.drop_first().last() == ls.last());
        assert(enc_labels(ls.drop_first()) == enc_labels(ls.drop_first().drop_last()) + enc_bin8(
            ls.drop_first().last(),
        ));
        assert(enc_labels(ls) =~= enc_bin8(ls[0]) + enc_labels(ls.drop_first()));
    }
}

proof fn lemma_rt_labels(b: Seq<u8>, i: int, ls: Seq<Seq<u8>>)
    requires
        window(b, i, enc_labels(ls)),
        forall|k: int| 0 <= k < ls.len() ==> (#[trigger] ls[k]).len() <= 255,
    ensures
        sp_labels(b, i, ls.len() as nat) == Some((ls, i + enc_labels(ls).len())),
    decreases ls.len(),
{
    if ls.len() == 0 {
        assert(sp_labels(b, i, 0) == Some((Seq::<Seq<u8>>::empty(), i)));
        assert(ls =~= Seq::<Seq<u8>>::empty());
    } else {
        lemma_enc_labels_front(ls);
        let head = enc_bin8(ls[0]);
        let rest = enc_labels(ls.drop_first());
        lemma_split_prefix(b, i, head, rest);
        lemma_rt_bin8(b, i, ls[0]);
        lemma_rt_labels(b, i + head.len(), ls.drop_first());
        assert(seq![ls[0]] + ls.drop_first() =~= ls);
    }
}

/// The label count's bound: a name within the wire limit has few labels.
proof fn lemma_wire_len_ge_count(ls: Seq<Seq<u8>>)
    ensures
        wire_len_of(ls) >= ls.len() + 1,
    decreases ls.len(),
{
    if ls.len() > 0 {
        lemma_wire_len_ge_count(ls.drop_first());
    }
}

proof fn lemma_rt_name(b: Seq<u8>, i: int, n: NameV)
    requires
        window(b, i, enc_name(n)),
        n.wf(),
    ensures
        sp_name(b, i) == Some((n, i + enc_name(n).len())),
{
    let ls = if n.fqdn {
        n.labels.push(Seq::<u8>::empty())
    } else {
        n.labels
    };
    let count: nat = ls.len() as nat;
    assert(enc_labels(ls) == enc_labels(n.labels) + if n.fqdn {
        enc_bin8(Seq::<u8>::empty())
    } else {
        Seq::<u8>::empty()
    }) by {
        if n.fqdn {
            assert(ls.drop_last() =~= n.labels);
            assert(ls.last() =~= Seq::<u8>::empty());
        } else {
            assert(enc_labels(ls) + Seq::<u8>::empty() =~= enc_labels(ls));
        }
    }
    let cb = be_bytes(count, 2);
    lemma_be_bytes_len(count, 2);
    assert(enc_name(n) =~= (seq![0xdcu8] + cb) + enc_labels(ls));
    lemma_split_prefix(b, i, seq![0xdcu8] + cb, enc_labels(ls));
    lemma_split_prefix(b, i, seq![0xdcu8], cb);
    lemma_window_bytes(b, i, seq![0xdcu8]);
    assert(b[i] == 0xdcu8);
    assert(b.subrange(i + 1, i + 3) == cb);
    lemma_pow256_values();
    lemma_wire_len_ge_count(n.labels);
    assert(count < pow256(2));
    lemma_be_val_of_bytes(count, 2);
    assert(window(b, i + 3, enc_labels(ls)));
    assert(forall|k: int| 0 <= k < ls.len() ==> (#[trigger] ls[k]).len() <= 255) by {
        assert(forall|k: int|
            0 <= k < n.labels.len() ==> (#[trigger] n.labels[k]).len() <= 63);
        if n.fqdn {
            assert(forall|k: int| 0 <= k < n.labels.len() ==> ls[k] == n.labels[k]);
            assert(ls.last().len() == 0);
        }
    }
    lemma_rt_labels(b, i + 3, ls);
    let j = i + 3 + enc_labels(ls).len();
    assert(sp_labels(b, i + 3, count) == Some((ls, j)));
    if n.fqdn {
        assert(ls.len() > 0 && ls.last().len() == 0);
        assert(ls.drop_last() =~= n.labels);
    } else {
        if n.labels.len() > 0 {
            assert(ls.last().len() >= 1);
        }
    }
    assert(sp_name(b, i) == Some((NameV { labels: n.labels, fqdn: n.fqdn }, j)));
    assert(NameV { labels: n.labels, fqdn: n.fqdn } == n);
}

proof fn lemma_rt_edns(b: Seq<u8>, i: int, e: Option<EdnsV>)
    requires
        window(b, i, enc_edns(e)),
        e matches Some(c) ==> c.option_value.len() <= u32::MAX,
    ensures
        sp_edns(b, i) == Some((e, i + enc_edns(e).len())),
{
    match e {
        None => {
            lemma_window_bytes(b, i, enc_edns(e));
            assert(b[i] == 0xc0u8);
        },
        Some(c) => {
            let e1 = enc_u8v(c.version);
            let e2 = enc_boolv(c.dnssec_ok);
            let e3 = enc_u16v(c.max_payload);
            let e4 = enc_u16v(c.option_code);
            let e5 = enc_bin32(c.option_value);
            let r4 = e4 + e5;
            let r3 = e3 + r4;
            let r2 = e2 + r3;
            let r1 = e1 + r2;
            assert(enc_edns(e) =~= seq![0x95u8] + r1);
            lemma_split_prefix(b, i, seq![0x95u8], r1);
            lemma_window_bytes(b, i, seq![0x95u8]);
            assert(b[i] == 0x95u8);
            let p1 = i + 1;
            assert(r1 =~= e1 + r2);
            lemma_split_prefix(b, p1, e1, r2);
            lemma_rt_u8v(b, p1, c.version);
            let p2 = p1 + e1.len();
            lemma_split_prefix(b, p2, e2, r3);
            lemma_rt_boolv(b, p2, c.dnssec_ok);
            let p3 = p2 + e2.len();
            lemma_split_prefix(b, p3, e3, r4);
            lemma_rt_u16v(b, p3, c.max_payload);
            let p4 = p3 + e3.len();
            lemma_split_prefix(b, p4, e4, e5);
            lemma_rt_u16v(b, p4, c.option_code);
            let p5 = p4 + e4.len();
            lemma_rt_bin32(b, p5, c.option_value);
            assert(EdnsV {
                version: c.version,
                dnssec_ok: c.dnssec_ok,
                max_payload: c.max_payload,
                option_code: c.option_code,
                option_value: c.option_value,
            } == c);
        },
    }
}

proof fn lemma_rt_proto(b: Seq<u8>, i: int, p: Protocol)
    requires
        window(b, i, enc_u8v(p.spec_code())),
    ensures
        sp_proto(b, i) == Some((p, i + enc_u8v(p.spec_code()).len())),
{
    lemma_rt_u8v(b, i, p.spec_code());
}

proof fn lemma_rt_question(b: Seq<u8>, i: int, q: QuestionV)
    requires
        window(b, i, enc_question(q)),
        q.wf(),
    ensures
        sp_question(b, i) == Some((q, i + enc_question(q).len())),
{
    let e1 = enc_name(q.qname);
    let e2 = enc_u16v(q.qtype);
    let e3 = enc_u8v(q.proto.spec_code());
    let e4 = enc_boolv(q.recursion_desired);
    let e5 = enc_edns(q.edns_config);
    let r4 = e4 + e5;
    let r3 = e3 + r4;
    let r2 = e2 + r3;
    let r1 = e1 + r2;
    assert(enc_question(q) =~= seq![0x95u8] + r1);
    lemma_split_prefix(b, i, seq![0x95u8], r1);
    lemma_window_bytes(b, i, seq![0x95u8]);
    assert(b[i] == 0x95u8);
    let p1 = i + 1;
    lemma_split_prefix(b, p1, e1, r2);
    lemma_rt_name(b, p1, q.qname);
    let p2 = p1 + e1.len();
    lemma_split_prefix(b, p2, e2, r3);
    lemma_rt_u16v(b, p2, q.qtype);
    let p3 = p2 + e2.len();
    lemma_split_prefix(b, p3, e3, r4);
    lemma_rt_proto(b, p3, q.proto);
    let p4 = p3 + e3.len();
    lemma_split_prefix(b, p4, e4, e5);
    lemma_rt_boolv(b, p4, q.recursion_desired);
    let p5 = p4 + e4.len();
    lemma_rt_edns(b, p5, q.edns_config);
    assert(QuestionV {
        qname: q.qname,
        qtype: q.qtype,
        proto: q.proto,
        recursion_desired: q.recursion_desired,
        edns_config: q.edns_config,
    } == q);
}

proof fn lemma_rt_ip(b: Seq<u8>, i: int, s: IpAddress)
    requires
        window(b, i, enc_ip(s)),
    ensures
        sp_ip(b, i) == Some((s, i + enc_ip(s).len())),
{
    lemma_pow256_values();
    match s {
        IpAddress::V4(x) => {
            lemma_be_bytes_len(x as nat, 4);
            lemma_rt_bin8(b, i, be_bytes(x as nat, 4));
            lemma_be_val_of_bytes(x as nat, 4);
        },
        IpAddress::V6(x) => {
            lemma_be_bytes_len(x as nat, 16);
            lemma_rt_bin8(b, i, be_bytes(x as nat, 16));
            lemma_be_val_of_bytes(x as nat, 16);
        },
    }
}

proof fn lemma_rt_kind(b: Seq<u8>, i: int, k: ErrorKind)
    requires
        window(b, i, enc_u8v(k.spec_code() as u8)),
    ensures
        sp_kind(b, i) == Some((k, i + enc_u8v(k.spec_code() as u8).len())),
{
    lemma_rt_u8v(b, i, k.spec_code() as u8);
}

proof fn lemma_rt_failure(b: Seq<u8>, i: int, f: Failure)
    requires
        window(b, i, enc_failure(f)),
    ensures
        sp_failure(b, i) == Some((f, i + enc_failure(f).len())),
{
    let e1 = enc_u64v(f.query_start);
    let e2 = enc_u32v(f.query_duration);
    let e3 = enc_u8v(f.kind.spec_code() as u8);
    let r2 = e2 + e3;
    let r1 = e1 + r2;
    assert(enc_failure(f) =~= seq![0x93u8] + r1);
    lemma_split_prefix(b, i, seq![0x93u8], r1);
    lemma_window_bytes(b, i, seq![0x93u8]);
    assert(b[i] == 0x93u8);
    let p1 = i + 1;
    lemma_split_prefix(b, p1, e1, r2);
    lemma_rt_u64v(b, p1, f.query_start);
    let p2 = p1 + e1.len();
    lemma_split_prefix(b, p2, e2, e3);
    lemma_rt_u32v(b, p2, f.query_duration);
    let p3 = p2 + e2.len();
    lemma_rt_kind(b, p3, f.kind);
    assert(Failure {
        query_start: f.query_start,
        query_duration: f.query_duration,
        kind: f.kind,
    } == f);
}

/// The failure item encoding, unfolded at the front.
proof fn lemma_enc_failure_items_front(fs: Seq<Failure>)
    requires
        fs.len() > 0,
    ensures
        enc_failure_items(fs) == enc_failure(fs[0]) + enc_failure_items(fs.drop_first()),
    decreases fs.len(),
{
    if fs.len() == 1 {
        assert(fs.drop_last() =~= Seq::<Failure>::empty());
        assert(fs.drop_first() =~= Seq::<Failure>::empty());
        assert(enc_failure_items(fs) =~= enc_failure(fs[0]) + enc_failure_items(fs.drop_first()));
    } else {
        lemma_enc_failure_items_front(fs.drop_last());
        assert(fs.drop_last()[0] == fs[0]);
        assert(fs.drop_last().drop_first() =~= fs.drop_first().drop_last());
        assert(fs.drop_first().last() == fs.last());
        assert(enc_failure_items(fs.drop_first()) == enc_failure_items(
            fs.drop_first().drop_last(),
        ) + enc_failure(fs.drop_first().last()));
        assert(enc_failure_items(fs) =~= enc_failure(fs[0]) + enc_failure_items(fs.drop_first()));
    }
}

#[verifier::rlimit(60)]
#[verifier::spinoff_prover]
proof fn lemma_rt_failure_items(b: Seq<u8>, i: int, fs: Seq<Failure>)
    requires
        window(b, i, enc_failure_items(fs)),
    ensures
        sp_failure_items(b, i, fs.len() as nat) == Some((fs, i + enc_failure_items(fs).len())),
    decreases fs.len(),
{
    if fs.len() == 0 {
        assert(fs =~= Seq::<Failure>::empty());
    } else {
        lemma_enc_failure_items_front(fs);
        let head = enc_failure(fs[0]);
        let rest = enc_failure_items(fs.drop_first());
        lemma_split_prefix(b, i, head, rest);
        lemma_rt_failure(b, i, fs[0]);
        lemma_rt_failure_items(b, i + head.len(), fs.drop_first());
        assert(seq![fs[0]] + fs.drop_first() =~= fs);
    }
}

proof fn lemma_rt_failures(b: Seq<u8>, i: int, fs: Seq<Failure>)
    requires
        window(b, i, enc_failures(fs)),
        chronological(fs),
        fs.len() <= u16::MAX,
    ensures
        sp_failures(b, i) == Some((fs, i + enc_failures(fs).len())),
{
    let cb = be_bytes(fs.len() as nat, 2);
    lemma_be_bytes_len(fs.len() as nat, 2);
    assert(enc_failures(fs) =~= (seq![0xdcu8] + cb) + enc_failure_items(fs));
    lemma_split_prefix(b, i, seq![0xdcu8] + cb, enc_failure_items(fs));
    lemma_split_prefix(b, i, seq![0xdcu8], cb);
    lemma_window_bytes(b, i, seq![0xdcu8]);
    assert(b[i] == 0xdcu8);
    assert(b.subrange(i + 1, i + 3) == cb);
    lemma_pow256_values();
    lemma_be_val_of_bytes(fs.len() as nat, 2);
    lemma_rt_failure_items(b, i + 3, fs);
}

proof fn lemma_rt_outcome(b: Seq<u8>, i: int, o: Result<Seq<u8>, ErrorKind>)
    requires
        window(b, i, enc_outcome(o)),
        o matches Ok(bytes) ==> bytes.len() <= u32::MAX,
    ensures
        sp_outcome(b, i) == Some((o, i + enc_outcome(o).len())),
{
    match o {
        Ok(bytes) => {
            let e1 = enc_u8v(0);
            let e2 = enc_bin32(bytes);
            let r1 = e1 + e2;
            assert(enc_outcome(o) =~= seq![0x92u8] + r1);
            lemma_split_prefix(b, i, seq![0x92u8], r1);
            lemma_window_bytes(b, i, seq![0x92u8]);
            assert(b[i] == 0x92u8);
            let p1 = i + 1;
            lemma_split_prefix(b, p1, e1, e2);
            lemma_rt_u8v(b, p1, 0);
            lemma_rt_bin32(b, p1 + e1.len(), bytes);
        },
        Err(k) => {
            let e1 = enc_u8v(1);
            let e2 = enc_u8v(k.spec_code() as u8);
            let r1 = e1 + e2;
            assert(enc_outcome(o) =~= seq![0x92u8] + r1);
            lemma_split_prefix(b, i, seq![0x92u8], r1);
            lemma_window_bytes(b, i, seq![0x92u8]);
            assert(b[i] == 0x92u8);
            let p1 = i + 1;
            lemma_split_prefix(b, p1, e1, e2);
            lemma_rt_u8v(b, p1, 1);
            lemma_rt_kind(b, p1 + e1.len(), k);
        },
    }
}

#[verifier::rlimit(60)]
#[verifier::spinoff_prover]
proof fn lemma_rt_response(b: Seq<u8>, i: int, r: ResponseV)
    requires
        window(b, i, enc_response(r)),
        r.wf(),
    ensures
        sp_response(b, i) == Some((r, i + enc_response(r).len())),
{
    let e1 = enc_failures(r.failures);
    let e2 = enc_u64v(r.started);
    let e3 = enc_u32v(r.duration);
    let e4 = enc_outcome(r.outcome);
    let r3 = e3 + e4;
    let r2 = e2 + r3;
    let r1 = e1 + r2;
    assert(enc_response(r) =~= seq![0x94u8] + r1);
    lemma_split_prefix(b, i, seq![0x94u8], r1);
    lemma_window_bytes(b, i, seq![0x94u8]);
    assert(b[i] == 0x94u8);
    let p1 = i + 1;
    lemma_split_prefix(b, p1, e1, r2);
    lemma_rt_failures(b, p1, r.failures);
    let p2 = p1 + e1.len();
    lemma_split_prefix(b, p2, e2, r3);
    lemma_rt_u64v(b, p2, r.started);
    let p3 = p2 + e2.len();
    lemma_split_prefix(b, p3, e3, e4);
    lemma_rt_u32v(b, p3, r.duration);
    let p4 = p3 + e3.len();
    lemma_rt_outcome(b, p4, r.outcome);
    assert(ResponseV {
        failures: r.failures,
        started: r.started,
        duration: r.duration,
        outcome: r.outcome,
    } == r);
}

/// The bucket item encoding, unfolded at the front.
proof fn lemma_enc_bucket_items_front(bk: BucketV)
    requires
        bk.len() > 0,
    ensures
        enc_bucket_items(bk) == enc_ip(bk[0].0) + enc_response(bk[0].1) + enc_bucket_items(
            bk.drop_first(),
        ),
    decreases bk.len(),
{
    if bk.len() == 1 {
        assert(bk.drop_last() =~= Seq::<(IpAddress, ResponseV)>::empty());
        assert(bk.drop_first() =~= Seq::<(IpAddress, ResponseV)>::empty());
        assert(enc_bucket_items(bk) =~= enc_ip(bk[0].0) + enc_response(bk[0].1)
            + enc_bucket_items(bk.drop_first()));
    } else {
        lemma_enc_bucket_items_front(bk.drop_last());
        assert(bk.drop_last()[0] == bk[0]);
        assert(bk.drop_last().drop_first() =~= bk.drop_first().drop_last());
        assert(bk.drop_first().last() == bk.last());
        assert(enc_bucket_items(bk.drop_first()) == enc_bucket_items(bk.drop_first().drop_last())
            + enc_ip(bk.drop_first().last().0) + enc_response(bk.drop_first().last().1));
        assert(enc_bucket_items(bk) =~= enc_ip(bk[0].0) + enc_response(bk[0].1)
            + enc_bucket_items(bk.drop_first()));
    }
}

/// Record well-formedness over a whole bucket.
pub open spec fn bucket_items_wf(bk: BucketV) -> bool {
    forall|x: int| 0 <= x < bk.len() ==> (#[trigger] bk[x]).1.wf()
}

#[verifier::rlimit(60)]
#[verifier::spinoff_prover]
proof fn lemma_rt_bucket_items(b: Seq<u8>, i: int, bk: BucketV)
    requires
        window(b, i, enc_bucket_items(bk)),
        bucket_items_wf(bk),
    ensures
        sp_bucket_items(b, i, bk.len() as nat) == Some((bk, i + enc_bucket_items(bk).len())),
    decreases bk.len(),
{
    if bk.len() == 0 {
        assert(bk =~= Seq::<(IpAddress, ResponseV)>::empty());
    } else {
        lemma_enc_bucket_items_front(bk);
        let h1 = enc_ip(bk[0].0);
        let h2 = enc_response(bk[0].1);
        let rest = enc_bucket_items(bk.drop_first());
        assert(h1 + h2 + rest =~= h1 + (h2 + rest));
        lemma_split_prefix(b, i, h1, h2 + rest);
        lemma_rt_ip(b, i, bk[0].0);
        let p1 = i + h1.len();
        lemma_split_prefix(b, p1, h2, rest);
        lemma_rt_response(b, p1, bk[0].1);
        let p2 = p1 + h2.len();
        assert forall|x: int| 0 <= x < bk.drop_first().len() implies (#[trigger] bk.drop_first()[
        x]).1.wf() by {
            assert(bk.drop_first()[x] == bk[x + 1]);
        }
        lemma_rt_bucket_items(b, p2, bk.drop_first());
        assert(seq![(bk[0].0, bk[0].1)] + bk.drop_first() =~= bk);
        assert((bk[0].0, bk[0].1) == bk[0]);
    }
}

proof fn lemma_rt_bucket(b: Seq<u8>, i: int, bk: BucketV)
    requires
        window(b, i, enc_bucket(bk)),
        bucket_items_wf(bk),
        bk.len() <= u32::MAX,
        forall|x: int, y: int| 0 <= x < y < bk.len() ==> (#[trigger] bk[x]).0 != (#[trigger] bk[y]).0,
    ensures
        sp_bucket(b, i) == Some((bk, i + enc_bucket(bk).len())),
{
    let cb = be_bytes(bk.len() as nat, 4);
    lemma_be_bytes_len(bk.len() as nat, 4);
    assert(enc_bucket(bk) =~= (seq![0xdfu8] + cb) + enc_bucket_items(bk));
    lemma_split_prefix(b, i, seq![0xdfu8] + cb, enc_bucket_items(bk));
    lemma_split_prefix(b, i, seq![0xdfu8], cb);
    lemma_window_bytes(b, i, seq![0xdfu8]);
    assert(b[i] == 0xdfu8);
    assert(b.subrange(i + 1, i + 5) == cb);
    lemma_pow256_values();
    lemma_be_val_of_bytes(bk.len() as nat, 4);
    lemma_rt_bucket_items(b, i + 5, bk);
}

/// The entry item encoding, unfolded at the front.
proof fn lemma_enc_entry_items_front(es: EntriesV)
    requires
        es.len() > 0,
    ensures
        enc_entry_items(es) == enc_question(es[0].0) + enc_bucket(es[0].1) + enc_entry_items(
            es.drop_first(),
        ),
    decreases es.len(),
{
    if es.len() == 1 {
        assert(es.drop_last() =~= Seq::<(QuestionV, BucketV)>::empty());
        assert(es.drop_first() =~= Seq::<(QuestionV, BucketV)>::empty());
        assert(enc_entry_items(es) =~= enc_question(es[0].0) + enc_bucket(es[0].1)
            + enc_entry_items(es.drop_first()));
    } else {
        lemma_enc_entry_items_front(es.drop_last());
        assert(es.drop_last()[0] == es[0]);
        assert(es.drop_last().drop_first() =~= es.drop_first().drop_last());
        assert(es.drop_first().last() == es.last());
        assert(enc_entry_items(es.drop_first()) == enc_entry_items(es.drop_first().drop_last())
            + enc_question(es.drop_first().last().0) + enc_bucket(es.drop_first().last().1));
        assert(enc_entry_items(es) =~= enc_question(es[0].0) + enc_bucket(es[0].1)
            + enc_entry_items(es.drop_first()));
    }
}

/// What the on-disk format demands of a store: well-formed distinct
/// questions, distinct servers per bucket, well-formed records, and counts
/// its length fields can carry.
pub open spec fn entries_wf(es: EntriesV) -> bool {
    &&& es.len() <= u32::MAX
    &&& distinct_question_keys(es)
    &&& forall|i: int| 0 <= i < es.len() ==> (#[trigger] es[i]).0.wf()
    &&& forall|i: int|
        0 <= i < es.len() ==> {
            let b = (#[trigger] es[i]).1;
            &&& b.len() <= u32::MAX
            &&& bucket_items_wf(b)
            &&& distinct_bucket_keys(b)
        }
}

#[verifier::rlimit(100)]
#[verifier::spinoff_prover]
proof fn lemma_rt_entry_items(b: Seq<u8>, i: int, es: EntriesV)
    requires
        window(b, i, enc_entry_items(es)),
        forall|k: int| 0 <= k < es.len() ==> (#[trigger] es[k]).0.wf(),
        forall|k: int|
            0 <= k < es.len() ==> {
                let bk = (#[trigger] es[k]).1;
                &&& bk.len() <= u32::MAX
                &&& bucket_items_wf(bk)
                &&& forall|x: int, y: int| 0 <= x < y < bk.len() ==> (#[trigger] bk[x]).0 != (
                #[trigger] bk[y]).0
            },
    ensures
        sp_entry_items(b, i, es.len() as nat) == Some((es, i + enc_entry_items(es).len())),
    decreases es.len(),
{
    if es.len() == 0 {
        assert(es =~= Seq::<(QuestionV, BucketV)>::empty());
    } else {
        lemma_enc_entry_items_front(es);
        let h1 = enc_question(es[0].0);
        let h2 = enc_bucket(es[0].1);
        let rest = enc_entry_items(es.drop_first());
        assert(h1 + h2 + rest =~= h1 + (h2 + rest));
        lemma_split_prefix(b, i, h1, h2 + rest);
        lemma_rt_question(b, i, es[0].0);
        let p1 = i + h1.len();
        lemma_split_prefix(b, p1, h2, rest);
        lemma_rt_bucket(b, p1, es[0].1);
        let p2 = p1 + h2.len();
        assert forall|k: int| 0 <= k < es.drop_first().len() implies (#[trigger] es.drop_first()[
        k]).0.wf() by {
            assert(es.drop_first()[k] == es[k + 1]);
        }
        assert forall|k: int|
            0 <= k < es.drop_first().len() implies {
            let bk = (#[trigger] es.drop_first()[k]).1;
            &&& bk.len() <= u32::MAX
            &&& bucket_items_wf(bk)
            &&& forall|x: int, y: int| 0 <= x < y < bk.len() ==> (#[trigger] bk[x]).0 != (
            #[trigger] bk[y]).0
        } by {
            assert(es.drop_first()[k] == es[k + 1]);
        }
        lemma_rt_entry_items(b, p2, es.drop_first());
        assert(seq![(es[0].0, es[0].1)] + es.drop_first() =~= es);
        assert((es[0].0, es[0].1) == es[0]);
    }
}

/// Round trip: a well-formed store's encoding loads back to exactly that
/// store. Together with the parsers' definition this pins the on-disk
/// format: the bytes a cache writes are the bytes that load.
pub proof fn lemma_round_trip(es: EntriesV)
    requires
        entries_wf(es),
    ensures
        sp_cache(enc_entries(es)) == Some(es),
{
    let b = enc_entries(es);
    let cb = be_bytes(es.len() as nat, 4);
    lemma_be_bytes_len(es.len() as nat, 4);
    assert(b =~= (seq![0xdfu8] + cb) + enc_entry_items(es));
    assert(b.subrange(0, b.len() as int) =~= b);
    lemma_split_prefix(b, 0, seq![0xdfu8] + cb, enc_entry_items(es));
    lemma_split_prefix(b, 0, seq![0xdfu8], cb);
    lemma_window_bytes(b, 0, seq![0xdfu8]);
    assert(b[0] == 0xdfu8);
    assert(b.subrange(1, 5) == cb);
    lemma_pow256_values();
    lemma_be_val_of_bytes(es.len() as nat, 4);
    lemma_rt_entry_items(b, 5, es);
    assert(sp_entries(b, 0) == Some((es, b.len() as int)));
}

// ---------------------------------------------------------------------
// soundness: the parsers accept only exact encodings, so the byte strings
// that load are precisely the encodings of well-formed stores
// ---------------------------------------------------------------------
/// Big-endian decoding inverts onto the bytes themselves.
proof fn lemma_be_bytes_of_val(s: Seq<u8>)
    ensures
        be_bytes(be_val(s), s.len() as nat) == s,
    decreases s.len(),
{
    if s.len() > 0 {
        lemma_be_bytes_of_val(s.drop_last());
        let x = be_val(s);
        assert(x == be_val(s.drop_last()) * 256 + s.last());
        assert(x % 256 == s.last()) by (nonlinear_arith)
            requires
                x == be_val(s.drop_last()) * 256 + s.last(),
                0 <= s.last() < 256,
        ;
        assert(x / 256 == be_val(s.drop_last())) by (nonlinear_arith)
            requires
                x == be_val(s.drop_last()) * 256 + s.last(),
                0 <= s.last() < 256,
        ;
        assert(be_bytes(x as nat, s.len() as nat) == be_bytes(
            be_val(s.drop_last()),
            (s.len() - 1) as nat,
        ) + seq![s.last()]);
        assert(s.drop_last() + seq![s.last()] =~= s);
    }
}

/// Two adjacent windows concatenate to the enclosing window.
proof fn lemma_join_ranges(b: Seq<u8>, i: int, j: int, k: int)
    requires
        0 <= i <= j <= k <= b.len(),
    ensures
        b.subrange(i, k) == b.subrange(i, j) + b.subrange(j, k),
{
    assert(b.subrange(i, k) =~= b.subrange(i, j) + b.subrange(j, k));
}

proof fn lemma_sound_u8v(b: Seq<u8>, i: int, x: u8, j: int)
    requires
        sp_u8v(b, i) == Some((x, j)),
    ensures
        i + enc_u8v(x).len() == j <= b.len(),
        b.subrange(i, j) == enc_u8v(x),
{
    assert(be_bytes(x as nat, 1) =~= seq![x]) by {
        assert(x as nat % 256 == x as nat);
        assert(be_bytes(x as nat / 256, 0) =~= Seq::<u8>::empty());
    }
    assert(b.subrange(i, j) =~= seq![0xccu8] + be_bytes(x as nat, 1));
}

proof fn lemma_sound_u16v(b: Seq<u8>, i: int, x: u16, j: int)
    requires
        sp_u16v(b, i) == Some((x, j)),
    ensures
        i + enc_u16v(x).len() == j <= b.len(),
        b.subrange(i, j) == enc_u16v(x),
{
    let w = b.subrange(i + 1, i + 3);
    lemma_be_val_bound(w);
    lemma_pow256_values();
    assert(x as nat == be_val(w));
    lemma_be_bytes_of_val(w);
    lemma_be_bytes_len(x as nat, 2);
    assert(b.subrange(i, j) =~= seq![0xcdu8] + w);
}

proof fn lemma_sound_u32v(b: Seq<u8>, i: int, x: u32, j: int)
    requires
        sp_u32v(b, i) == Some((x, j)),
    ensures
        i + enc_u32v(x).len() == j <= b.len(),
        b.subrange(i, j) == enc_u32v(x),
{
    let w = b.subrange(i + 1, i + 5);
    lemma_be_val_bound(w);
    lemma_pow256_values();
    assert(x as nat == be_val(w));
    lemma_be_bytes_of_val(w);
    lemma_be_bytes_len(x as nat, 4);
    assert(b.subrange(i, j) =~= seq![0xceu8] + w);
}

proof fn lemma_sound_u64v(b: Seq<u8>, i: int, x: u64, j: int)
    requires
        sp_u64v(b, i) == Some((x, j)),
    ensures
        i + enc_u64v(x).len() == j <= b.len(),
        b.subrange(i, j) == enc_u64v(x),
{
    let w = b.subrange(i + 1, i + 9);
    lemma_be_val_bound(w);
    lemma_pow256_values();
    assert(x as nat == be_val(w));
    lemma_be_bytes_of_val(w);
    lemma_be_bytes_len(x as nat, 8);
    assert(b.subrange(i, j) =~= seq![0xcfu8] + w);
}

proof fn lemma_sound_boolv(b: Seq<u8>, i: int, x: bool, j: int)
    requires
        sp_boolv(b, i) == Some((x, j)),
    ensures
        i + enc_boolv(x).len() == j <= b.len(),
        b.subrange(i, j) == enc_boolv(x),
{
    assert(b.subrange(i, j) =~= enc_boolv(x));
}

proof fn lemma_sound_bin8(b: Seq<u8>, i: int, s: Seq<u8>, j: int)
    requires
        sp_bin8(b, i) == Some((s, j)),
    ensures
        i + enc_bin8(s).len() == j <= b.len(),
        b.subrange(i, j) == enc_bin8(s),
        s.len() <= 255,
{
    assert(s == b.subrange(i + 2, i + 2 + b[i + 1] as int));
    assert(s.len() == b[i + 1] as int);
    assert(be_bytes(s.len() as nat, 1) =~= seq![b[i + 1]]) by {
        assert(s.len() as nat % 256 == s.len());
        assert(be_bytes(s.len() as nat / 256, 0) =~= Seq::<u8>::empty());
    }
    assert(b.subrange(i, j) =~= (seq![0xc4u8] + be_bytes(s.len() as nat, 1)) + s);
}

proof fn lemma_sound_bin32(b: Seq<u8>, i: int, s: Seq<u8>, j: int)
    requires
        sp_bin32(b, i) == Some((s, j)),
    ensures
        i + enc_bin32(s).len() == j <= b.len(),
        b.subrange(i, j) == enc_bin32(s),
        s.len() <= u32::MAX,
{
    let w = b.subrange(i + 1, i + 5);
    lemma_be_val_bound(w);
    lemma_pow256_values();
    assert(s.len() == be_val(w));
    lemma_be_bytes_of_val(w);
    lemma_be_bytes_len(s.len() as nat, 4);
    assert(b.subrange(i, j) =~= (seq![0xc6u8] + w) + s);
}

proof fn lemma_sound_labels(b: Seq<u8>, i: int, count: nat, ls: Seq<Seq<u8>>, j: int)
    requires
        sp_labels(b, i, count) == Some((ls, j)),
        0 <= i <= b.len(),
    ensures
        ls.len() == count,
        i + enc_labels(ls).len() == j <= b.len(),
        b.subrange(i, j) == enc_labels(ls),
        forall|k: int| 0 <= k < ls.len() ==> (#[trigger] ls[k]).len() <= 255,
    decreases count,
{
    if count == 0 {
        assert(b.subrange(i, i) =~= Seq::<u8>::empty());
        assert(enc_labels(ls) =~= Seq::<u8>::empty());
    } else {
        let (l, m) = sp_bin8(b, i)->Some_0;
        let (rest, _) = sp_labels(b, m, (count - 1) as nat)->Some_0;
        lemma_sound_bin8(b, i, l, m);
        lemma_sound_labels(b, m, (count - 1) as nat, rest, j);
        assert(ls == seq![l] + rest);
        assert(ls[0] == l);
        assert(ls.drop_first() =~= rest);
        lemma_enc_labels_front(ls);
        lemma_join_ranges(b, i, m, j);
    }
}

proof fn lemma_sound_name(b: Seq<u8>, i: int, n: NameV, j: int)
    requires
        sp_name(b, i) == Some((n, j)),
    ensures
        i + enc_name(n).len() == j <= b.len(),
        b.subrange(i, j) == enc_name(n),
        n.wf(),
{
    let count = be_val(b.subrange(i + 1, i + 3));
    let (ls, _) = sp_labels(b, i + 3, count)->Some_0;
    lemma_sound_labels(b, i + 3, count, ls, j);
    let w = b.subrange(i + 1, i + 3);
    lemma_be_val_bound(w);
    lemma_pow256_values();
    lemma_be_bytes_of_val(w);
    lemma_be_bytes_len(count, 2);
    let fqdn = ls.len() > 0 && ls.last().len() == 0;
    assert(n == NameV { labels: if fqdn { ls.drop_last() } else { ls }, fqdn });
    // the parsed label list is the name's labels plus the marker
    assert(enc_labels(ls) == enc_labels(n.labels) + if n.fqdn {
        enc_bin8(Seq::<u8>::empty())
    } else {
        Seq::<u8>::empty()
    }) by {
        if fqdn {
            assert(ls.drop_last() == n.labels);
            assert(ls.last() =~= Seq::<u8>::empty());
        } else {
            assert(enc_labels(ls) + Seq::<u8>::empty() =~= enc_labels(ls));
        }
    }
    assert(count == n.labels.len() + if n.fqdn {
        1nat
    } else {
        0nat
    });
    assert(b.subrange(i, j) =~= (seq![0xdcu8] + w) + enc_labels(ls)) by {
        lemma_join_ranges(b, i, i + 3, j);
        assert(b.subrange(i, i + 3) =~= seq![0xdcu8] + w);
    }
    assert(b.subrange(i, j) =~= enc_name(n));
}

proof fn lemma_sound_edns(b: Seq<u8>, i: int, e: Option<EdnsV>, j: int)
    requires
        sp_edns(b, i) == Some((e, j)),
    ensures
        i + enc_edns(e).len() == j <= b.len(),
        b.subrange(i, j) == enc_edns(e),
        e matches Some(c) ==> c.option_value.len() <= u32::MAX,
{
    if b[i] == 0xc0u8 {
        assert(e is None);
        assert(b.subrange(i, j) =~= enc_edns(e));
    } else {
        let c = e->Some_0;
        let (version, i2) = sp_u8v(b, i + 1)->Some_0;
        let (dnssec_ok, i3) = sp_boolv(b, i2)->Some_0;
        let (max_payload, i4) = sp_u16v(b, i3)->Some_0;
        let (option_code, i5) = sp_u16v(b, i4)->Some_0;
        let (option_value, i6) = sp_bin32(b, i5)->Some_0;
        lemma_sound_u8v(b, i + 1, version, i2);
        lemma_sound_boolv(b, i2, dnssec_ok, i3);
        lemma_sound_u16v(b, i3, max_payload, i4);
        lemma_sound_u16v(b, i4, option_code, i5);
        lemma_sound_bin32(b, i5, option_value, i6);
        lemma_join_ranges(b, i4, i5, i6);
        lemma_join_ranges(b, i3, i4, i6);
        lemma_join_ranges(b, i2, i3, i6);
        lemma_join_ranges(b, i + 1, i2, i6);
        lemma_join_ranges(b, i, i + 1, i6);
        assert(b.subrange(i, i + 1) =~= seq![0x95u8]);
        assert(b.subrange(i, j) =~= enc_edns(e));
    }
}

proof fn lemma_sound_proto(b: Seq<u8>, i: int, p: Protocol, j: int)
    requires
        sp_proto(b, i) == Some((p, j)),
    ensures
        i + enc_u8v(p.spec_code()).len() == j <= b.len(),
        b.subrange(i, j) == enc_u8v(p.spec_code()),
{
    let (c, _) = sp_u8v(b, i)->Some_0;
    lemma_sound_u8v(b, i, c, j);
    assert(p.spec_code() == c);
}

#[verifier::rlimit(60)]
#[verifier::spinoff_prover]
proof fn lemma_sound_question(b: Seq<u8>, i: int, q: QuestionV, j: int)
    requires
        sp_question(b, i) == Some((q, j)),
    ensures
        i + enc_question(q).len() == j <= b.len(),
        b.subrange(i, j) == enc_question(q),
        q.wf(),
{
    let (qname, i2) = sp_name(b, i + 1)->Some_0;
    let (qtype, i3) = sp_u16v(b, i2)->Some_0;
    let (proto, i4) = sp_proto(b, i3)->Some_0;
    let (rd, i5) = sp_boolv(b, i4)->Some_0;
    let (edns, i6) = sp_edns(b, i5)->Some_0;
    lemma_sound_name(b, i + 1, qname, i2);
    lemma_sound_u16v(b, i2, qtype, i3);
    lemma_sound_proto(b, i3, proto, i4);
    lemma_sound_boolv(b, i4, rd, i5);
    lemma_sound_edns(b, i5, edns, i6);
    lemma_join_ranges(b, i4, i5, i6);
    lemma_join_ranges(b, i3, i4, i6);
    lemma_join_ranges(b, i2, i3, i6);
    lemma_join_ranges(b, i + 1, i2, i6);
    lemma_join_ranges(b, i, i + 1, i6);
    assert(b.subrange(i, i + 1) =~= seq![0x95u8]);
    assert(b.subrange(i, j) =~= enc_question(q));
}

proof fn lemma_sound_ip(b: Seq<u8>, i: int, s: IpAddress, j: int)
    requires
        sp_ip(b, i) == Some((s, j)),
    ensures
        i + enc_ip(s).len() == j <= b.len(),
        b.subrange(i, j) == enc_ip(s),
{
    let (octets, _) = sp_bin8(b, i)->Some_0;
    lemma_sound_bin8(b, i, octets, j);
    lemma_be_val_bound(octets);
    lemma_pow256_values();
    lemma_be_bytes_of_val(octets);
    match s {
        IpAddress::V4(x) => {
            assert(x as nat == be_val(octets));
            assert(be_bytes(x as nat, 4) == octets);
        },
        IpAddress::V6(x) => {
            assert(x as nat == be_val(octets));
            assert(be_bytes(x as nat, 16) == octets);
        },
    }
}

proof fn lemma_sound_kind(b: Seq<u8>, i: int, k: ErrorKind, j: int)
    requires
        sp_kind(b, i) == Some((k, j)),
    ensures
        i + enc_u8v(k.spec_code() as u8).len() == j <= b.len(),
        b.subrange(i, j) == enc_u8v(k.spec_code() as u8),
{
    let (c, _) = sp_u8v(b, i)->Some_0;
    lemma_sound_u8v(b, i, c, j);
    assert(k.spec_code() as u8 == c);
}

proof fn lemma_sound_failure(b: Seq<u8>, i: int, f: Failure, j: int)
    requires
        sp_failure(b, i) == Some((f, j)),
    ensures
        i + enc_failure(f).len() == j <= b.len(),
        b.subrange(i, j) == enc_failure(f),
{
    let (qs, i2) = sp_u64v(b, i + 1)->Some_0;
    let (qd, i3) = sp_u32v(b, i2)->Some_0;
    let (kind, i4) = sp_kind(b, i3)->Some_0;
    lemma_sound_u64v(b, i + 1, qs, i2);
    lemma_sound_u32v(b, i2, qd, i3);
    lemma_sound_kind(b, i3, kind, i4);
    lemma_join_ranges(b, i2, i3, i4);
    lemma_join_ranges(b, i + 1, i2, i4);
    lemma_join_ranges(b, i, i + 1, i4);
    assert(b.subrange(i, i + 1) =~= seq![0x93u8]);
    assert(b.subrange(i, j) =~= enc_failure(f));
}

#[verifier::rlimit(60)]
#[verifier::spinoff_prover]
proof fn lemma_sound_failure_items(b: Seq<u8>, i: int, count: nat, fs: Seq<Failure>, j: int)
    requires
        sp_failure_items(b, i, count) == Some((fs, j)),
        0 <= i <= b.len(),
    ensures
        fs.len() == count,
        i + enc_failure_items(fs).len() == j <= b.len(),
        b.subrange(i, j) == enc_failure_items(fs),
    decreases count,
{
    if count == 0 {
        assert(b.subrange(i, i) =~= Seq::<u8>::empty());
        assert(enc_failure_items(fs) =~= Seq::<u8>::empty());
    } else {
        let (f, m) = sp_failure(b, i)->Some_0;
        let (rest, _) = sp_failure_items(b, m, (count - 1) as nat)->Some_0;
        lemma_sound_failure(b, i, f, m);
        lemma_sound_failure_items(b, m, (count - 1) as nat, rest, j);
        assert(fs == seq![f] + rest);
        assert(fs[0] == f);
        assert(fs.drop_first() =~= rest);
        lemma_enc_failure_items_front(fs);
        lemma_join_ranges(b, i, m, j);
    }
}

proof fn lemma_sound_failures(b: Seq<u8>, i: int, fs: Seq<Failure>, j: int)
    requires
        sp_failures(b, i) == Some((fs, j)),
    ensures
        i + enc_failures(fs).len() == j <= b.len(),
        b.subrange(i, j) == enc_failures(fs),
        chronological(fs),
        fs.len() <= u16::MAX,
{
    let count = be_val(b.subrange(i + 1, i + 3));
    let (items, _) = sp_failure_items(b, i + 3, count)->Some_0;
    lemma_sound_failure_items(b, i + 3, count, items, j);
    let w = b.subrange(i + 1, i + 3);
    lemma_be_val_bound(w);
    lemma_pow256_values();
    lemma_be_bytes_of_val(w);
    lemma_be_bytes_len(count, 2);
    lemma_join_ranges(b, i, i + 3, j);
    assert(b.subrange(i, i + 3) =~= seq![0xdcu8] + w);
    assert(b.subrange(i, j) =~= enc_failures(fs));
}

proof fn lemma_sound_outcome(b: Seq<u8>, i: int, o: Result<Seq<u8>, ErrorKind>, j: int)
    requires
        sp_outcome(b, i) == Some((o, j)),
    ensures
        i + enc_outcome(o).len() == j <= b.len(),
        b.subrange(i, j) == enc_outcome(o),
        o matches Ok(bytes) ==> bytes.len() <= u32::MAX,
{
    let (t, i2) = sp_u8v(b, i + 1)->Some_0;
    lemma_sound_u8v(b, i + 1, t, i2);
    if t == 0 {
        let (bytes, i3) = sp_bin32(b, i2)->Some_0;
        lemma_sound_bin32(b, i2, bytes, i3);
        lemma_join_ranges(b, i + 1, i2, i3);
        lemma_join_ranges(b, i, i + 1, i3);
        assert(b.subrange(i, i + 1) =~= seq![0x92u8]);
        assert(b.subrange(i, j) =~= enc_outcome(o));
    } else {
        let (k, i3) = sp_kind(b, i2)->Some_0;
        lemma_sound_kind(b, i2, k, i3);
        lemma_join_ranges(b, i + 1, i2, i3);
        lemma_join_ranges(b, i, i + 1, i3);
        assert(b.subrange(i, i + 1) =~= seq![0x92u8]);
        assert(b.subrange(i, j) =~= enc_outcome(o));
    }
}

#[verifier::rlimit(60)]
#[verifier::spinoff_prover]
proof fn lemma_sound_response(b: Seq<u8>, i: int, r: ResponseV, j: int)
    requires
        sp_response(b, i) == Some((r, j)),
    ensures
        i + enc_response(r).len() == j <= b.len(),
        b.subrange(i, j) == enc_response(r),
        r.wf(),
{
    let (fs, i2) = sp_failures(b, i + 1)->Some_0;
    let (st, i3) = sp_u64v(b, i2)->Some_0;
    let (du, i4) = sp_u32v(b, i3)->Some_0;
    let (oc, i5) = sp_outcome(b, i4)->Some_0;
    lemma_sound_failures(b, i + 1, fs, i2);
    lemma_sound_u64v(b, i2, st, i3);
    lemma_sound_u32v(b, i3, du, i4);
    lemma_sound_outcome(b, i4, oc, i5);
    lemma_join_ranges(b, i3, i4, i5);
    lemma_join_ranges(b, i2, i3, i5);
    lemma_join_ranges(b, i + 1, i2, i5);
    lemma_join_ranges(b, i, i + 1, i5);
    assert(b.subrange(i, i + 1) =~= seq![0x94u8]);
    assert(b.subrange(i, j) =~= enc_response(r));
}

#[verifier::rlimit(60)]
#[verifier::spinoff_prover]
proof fn lemma_sound_bucket_items(b: Seq<u8>, i: int, count: nat, bk: BucketV, j: int)
    requires
        sp_bucket_items(b, i, count) == Some((bk, j)),
        0 <= i <= b.len(),
    ensures
        bk.len() == count,
        i + enc_bucket_items(bk).len() == j <= b.len(),
        b.subrange(i, j) == enc_bucket_items(bk),
        bucket_items_wf(bk),
    decreases count,
{
    if count == 0 {
        assert(b.subrange(i, i) =~= Seq::<u8>::empty());
        assert(enc_bucket_items(bk) =~= Seq::<u8>::empty());
    } else {
        let (s, m) = sp_ip(b, i)->Some_0;
        let (r, m2) = sp_response(b, m)->Some_0;
        let (rest, _) = sp_bucket_items(b, m2, (count - 1) as nat)->Some_0;
        lemma_sound_ip(b, i, s, m);
        lemma_sound_response(b, m, r, m2);
        lemma_sound_bucket_items(b, m2, (count - 1) as nat, rest, j);
        assert(bk == seq![(s, r)] + rest);
        assert(bk[0] == (s, r));
        assert(bk.drop_first() =~= rest);
        lemma_enc_bucket_items_front(bk);
        lemma_join_ranges(b, m, m2, j);
        lemma_join_ranges(b, i, m, j);
        assert(bk[0].0 == s && bk[0].1 == r);
        assert(b.subrange(i, j) =~= enc_bucket_items(bk));
        assert forall|x: int| 0 <= x < bk.len() implies (#[trigger] bk[x]).1.wf() by {
            if x > 0 {
                assert(bk[x] == rest[x - 1]);
            }
        }
    }
}

proof fn lemma_sound_bucket(b: Seq<u8>, i: int, bk: BucketV, j: int)
    requires
        sp_bucket(b, i) == Some((bk, j)),
    ensures
        i + enc_bucket(bk).len() == j <= b.len(),
        b.subrange(i, j) == enc_bucket(bk),
        bucket_items_wf(bk),
        distinct_bucket_keys(bk),
        bk.len() <= u32::MAX,
{
    let count = be_val(b.subrange(i + 1, i + 5));
    let (items, _) = sp_bucket_items(b, i + 5, count)->Some_0;
    lemma_sound_bucket_items(b, i + 5, count, items, j);
    let w = b.subrange(i + 1, i + 5);
    lemma_be_val_bound(w);
    lemma_pow256_values();
    lemma_be_bytes_of_val(w);
    lemma_be_bytes_len(count, 4);
    lemma_join_ranges(b, i, i + 5, j);
    assert(b.subrange(i, i + 5) =~= seq![0xdfu8] + w);
    assert(b.subrange(i, j) =~= enc_bucket(bk));
}

#[verifier::rlimit(100)]
#[verifier::spinoff_prover]
proof fn lemma_sound_entry_items(b: Seq<u8>, i: int, count: nat, es: EntriesV, j: int)
    requires
        sp_entry_items(b, i, count) == Some((es, j)),
        0 <= i <= b.len(),
    ensures
        es.len() == count,
        i + enc_entry_items(es).len() == j <= b.len(),
        b.subrange(i, j) == enc_entry_items(es),
        forall|k: int| 0 <= k < es.len() ==> (#[trigger] es[k]).0.wf(),
        forall|k: int|
            0 <= k < es.len() ==> {
                let bk = (#[trigger] es[k]).1;
                &&& bk.len() <= u32::MAX
                &&& bucket_items_wf(bk)
                &&& distinct_bucket_keys(bk)
            },
    decreases count,
{
    if count == 0 {
        assert(b.subrange(i, i) =~= Seq::<u8>::empty());
        assert(enc_entry_items(es) =~= Seq::<u8>::empty());
    } else {
        let (q, m) = sp_question(b, i)->Some_0;
        let (bk, m2) = sp_bucket(b, m)->Some_0;
        let (rest, _) = sp_entry_items(b, m2, (count - 1) as nat)->Some_0;
        lemma_sound_question(b, i, q, m);
        lemma_sound_bucket(b, m, bk, m2);
        lemma_sound_entry_items(b, m2, (count - 1) as nat, rest, j);
        assert(es == seq![(q, bk)] + rest);
        assert(es[0] == (q, bk));
        assert(es.drop_first() =~= rest);
        lemma_enc_entry_items_front(es);
        lemma_join_ranges(b, m, m2, j);
        lemma_join_ranges(b, i, m, j);
        assert(es[0].0 == q && es[0].1 == bk);
        assert(b.subrange(i, j) =~= enc_entry_items(es));
        assert forall|k: int| 0 <= k < es.len() implies (#[trigger] es[k]).0.wf() by {
            if k > 0 {
                assert(es[k] == rest[k - 1]);
            }
        }
        assert forall|k: int|
            0 <= k < es.len() implies {
            let bkk = (#[trigger] es[k]).1;
            &&& bkk.len() <= u32::MAX
            &&& bucket_items_wf(bkk)
            &&& distinct_bucket_keys(bkk)
        } by {
            if k > 0 {
                assert(es[k] == rest[k - 1]);
            }
        }
    }
}

/// Soundness: a byte string that loads is exactly the encoding of the
/// well-formed store it loads to. Together with [`lemma_round_trip`] the
/// byte strings that load are precisely the encodings of well-formed
/// stores.
pub proof fn lemma_parse_sound(b: Seq<u8>, es: EntriesV)
    requires
        sp_cache(b) == Some(es),
    ensures
        b == enc_entries(es),
        entries_wf(es),
{
    let (es0, j) = sp_entries(b, 0)->Some_0;
    assert(es0 == es && j == b.len());
    let count = be_val(b.subrange(1, 5));
    let (items, _) = sp_entry_items(b, 5, count)->Some_0;
    lemma_sound_entry_items(b, 5, count, items, j);
    let w = b.subrange(1, 5);
    lemma_be_val_bound(w);
    lemma_pow256_values();
    lemma_be_bytes_of_val(w);
    lemma_be_bytes_len(count, 4);
    lemma_join_ranges(b, 0, 5, j);
    assert(b.subrange(0, 5) =~= seq![0xdfu8] + w);
    assert(b.subrange(0, b.len() as int) =~= b);
    assert(b =~= enc_entries(es));
}

// ---------------------------------------------------------------------
// executable writers
// ---------------------------------------------------------------------
/// A load failure: the bytes are not a whole-store encoding.
#[derive(Clone, Copy, Debug, PartialEq, Eq, Structural)]
pub struct DecodeError;

impl DecodeError {
    /// The failure's description.
    pub fn message(&self) -> (r: String)
        ensures
            r@ == "the bytes are not a whole-store encoding of a cache"@,
    {
        "the bytes are not a whole-store encoding of a cache".to_owned()
    }
}

/// Appends the `n`-byte big-endian encoding of `x`.
pub fn write_be(out: &mut Vec<u8>, x: u64, n: usize)
    requires
        n <= 8,
    ensures
        final(out)@ == old(out)@ + be_bytes(x as nat, n as nat),
    decreases n,
{
    if n == 0 {
        assert(out@ =~= old(out)@ + be_bytes(x as nat, 0));
        return ;
    }
    write_be(out, x / 256, n - 1);
    out.push((x % 256) as u8);
    proof {
        assert((x % 256) as u8 == (x as nat % 256) as u8);
        assert((x / 256) as nat == x as nat / 256);
        assert(out@ =~= old(out)@ + be_bytes(x as nat, n as nat));
    }
}

/// Appends the `n`-byte big-endian encoding of a 128-bit value.
pub fn write_be128(out: &mut Vec<u8>, x: u128, n: usize)
    requires
        n <= 16,
    ensures
        final(out)@ == old(out)@ + be_bytes(x as nat, n as nat),
    decreases n,
{
    if n == 0 {
        assert(out@ =~= old(out)@ + be_bytes(x as nat, 0));
        return ;
    }
    write_be128(out, x / 256, n - 1);
    out.push((x % 256) as u8);
    proof {
        assert((x % 256) as u8 == (x as nat % 256) as u8);
        assert((x / 256) as nat == x as nat / 256);
        assert(out@ =~= old(out)@ + be_bytes(x as nat, n as nat));
    }
}

/// Appends a tagged unsigned byte.
pub fn write_u8v(out: &mut Vec<u8>, x: u8)
    ensures
        final(out)@ == old(out)@ + enc_u8v(x),
{
    out.push(0xcc);
    write_be(out, x as u64, 1);
    assert(out@ =~= old(out)@ + enc_u8v(x));
}

/// Appends a tagged 16-bit value.
pub fn write_u16v(out: &mut Vec<u8>, x: u16)
    ensures
        final(out)@ == old(out)@ + enc_u16v(x),
{
    out.push(0xcd);
    write_be(out, x as u64, 2);
    assert(out@ =~= old(out)@ + enc_u16v(x));
}

/// Appends a tagged 32-bit value.
pub fn write_u32v(out: &mut Vec<u8>, x: u32)
    ensures
        final(out)@ == old(out)@ + enc_u32v(x),
{
    out.push(0xce);
    write_be(out, x as u64, 4);
    assert(out@ =~= old(out)@ + enc_u32v(x));
}

/// Appends a tagged 64-bit value.
pub fn write_u64v(out: &mut Vec<u8>, x: u64)
    ensures
        final(out)@ == old(out)@ + enc_u64v(x),
{
    out.push(0xcf);
    write_be(out, x, 8);
    assert(out@ =~= old(out)@ + enc_u64v(x));
}

/// Appends a boolean tag.
pub fn write_boolv(out: &mut Vec<u8>, x: bool)
    ensures
        final(out)@ == old(out)@ + enc_boolv(x),
{
    if x {
        out.push(0xc3);
    } else {
        out.push(0xc2);
    }
    assert(out@ =~= old(out)@ + enc_boolv(x));
}

/// Appends a short byte string.
pub fn write_bin8(out: &mut Vec<u8>, s: &Vec<u8>)
    requires
        s@.len() <= 255,
    ensures
        final(out)@ == old(out)@ + enc_bin8(s@),
{
    out.push(0xc4);
    write_be(out, s.len() as u64, 1);
    push_bytes(out, s);
    assert(out@ =~= old(out)@ + enc_bin8(s@));
}

/// Appends a byte string with a four-byte length.
pub fn write_bin32(out: &mut Vec<u8>, s: &Vec<u8>)
    requires
        s@.len() <= u32::MAX,
    ensures
        final(out)@ == old(out)@ + enc_bin32(s@),
{
    out.push(0xc6);
    write_be(out, s.len() as u64, 4);
    push_bytes(out, s);
    assert(out@ =~= old(out)@ + enc_bin32(s@));
}

/// Appends a name.
pub fn write_name(out: &mut Vec<u8>, n: &DnsName)
    requires
        n.wf(),
    ensures
        final(out)@ == old(out)@ + enc_name(n@),
{
    proof {
        lemma_wire_len_ge_count(n@.labels);
    }
    let labels = n.label_count();
    let count: u64 = labels as u64 + if n.is_fqdn() {
        1
    } else {
        0
    };
    out.push(0xdc);
    write_be(out, count, 2);
    let mut i: usize = 0;
    while i < labels
        invariant
            n.wf(),
            labels == n@.labels.len(),
            i <= labels,
            out@ == old(out)@ + seq![0xdcu8] + be_bytes(
                (n@.labels.len() + if n@.fqdn {
                    1nat
                } else {
                    0nat
                }) as nat,
                2,
            ) + enc_labels(n@.labels.take(i as int)),
        decreases labels - i,
    {
        proof {
            assert(n@.labels.take(i + 1).drop_last() =~= n@.labels.take(i as int));
            assert(n@.labels.take(i + 1).last() == n@.labels[i as int]);
        }
        write_bin8(out, n.label_at(i));
        i += 1;
    }
    proof {
        assert(n@.labels.take(labels as int) =~= n@.labels);
    }
    if n.is_fqdn() {
        let empty: Vec<u8> = Vec::new();
        write_bin8(out, &empty);
        assert(empty@ =~= Seq::<u8>::empty());
    }
    assert(out@ =~= old(out)@ + enc_name(n@));
}

/// Appends optional EDNS settings.
pub fn write_edns(out: &mut Vec<u8>, e: &Option<EdnsConfig>)
    requires
        match e {
            Some(c) => c.option_value@.len() <= u32::MAX,
            None => true,
        },
    ensures
        final(out)@ == old(out)@ + enc_edns(match e {
            Some(c) => Some(c@),
            None => None,
        }),
{
    match e {
        None => {
            out.push(0xc0);
            assert(out@ =~= old(out)@ + enc_edns(None));
        },
        Some(c) => {
            out.push(0x95);
            write_u8v(out, c.version);
            write_boolv(out, c.dnssec_ok);
            write_u16v(out, c.max_payload);
            write_u16v(out, c.option_code);
            write_bin32(out, &c.option_value);
            assert(out@ =~= old(out)@ + enc_edns(Some(c@)));
        },
    }
}

/// Appends a question.
pub fn write_question(out: &mut Vec<u8>, q: &Question)
    requires
        q.wf(),
    ensures
        final(out)@ == old(out)@ + enc_question(q@),
{
    out.push(0x95);
    write_name(out, &q.qname);
    write_u16v(out, q.qtype);
    write_u8v(out, q.proto.code());
    write_boolv(out, q.recursion_desired);
    write_edns(out, &q.edns_config);
    assert(out@ =~= old(out)@ + enc_question(q@));
}

/// Appends a server address.
pub fn write_ip(out: &mut Vec<u8>, s: IpAddress)
    ensures
        final(out)@ == old(out)@ + enc_ip(s),
{
    match s {
        IpAddress::V4(x) => {
            out.push(0xc4);
            write_be(out, 4, 1);
            write_be(out, x as u64, 4);
            proof {
                lemma_be_bytes_len(x as nat, 4);
                assert(out@ =~= old(out)@ + enc_ip(s));
            }
        },
        IpAddress::V6(x) => {
            out.push(0xc4);
            write_be(out, 16, 1);
            write_be128(out, x, 16);
            proof {
                lemma_be_bytes_len(x as nat, 16);
                assert(out@ =~= old(out)@ + enc_ip(s));
            }
        },
    }
}

/// Appends one failed attempt.
pub fn write_failure(out: &mut Vec<u8>, f: Failure)
    ensures
        final(out)@ == old(out)@ + enc_failure(f),
{
    out.push(0x93);
    write_u64v(out, f.query_start);
    write_u32v(out, f.query_duration);
    write_u8v(out, f.kind.code() as u8);
    assert(out@ =~= old(out)@ + enc_failure(f));
}

/// Appends a failure list.
pub fn write_failures(out: &mut Vec<u8>, fs: &Vec<Failure>)
    requires
        fs@.len() <= u16::MAX,
    ensures
        final(out)@ == old(out)@ + enc_failures(fs@),
{
    out.push(0xdc);
    write_be(out, fs.len() as u64, 2);
    let mut i: usize = 0;
    while i < fs.len()
        invariant
            i <= fs@.len(),
            out@ == old(out)@ + seq![0xdcu8] + be_bytes(fs@.len() as nat, 2) + enc_failure_items(
                fs@.take(i as int),
            ),
        decreases fs@.len() - i,
    {
        proof {
            assert(fs@.take(i + 1).drop_last() =~= fs@.take(i as int));
            assert(fs@.take(i + 1).last() == fs@[i as int]);
        }
        write_failure(out, fs[i]);
        i += 1;
    }
    proof {
        assert(fs@.take(fs@.len() as int) =~= fs@);
        assert(out@ =~= old(out)@ + enc_failures(fs@));
    }
}

/// Appends a stored record.
pub fn write_response(out: &mut Vec<u8>, r: &RetriedResponse)
    requires
        r.wf(),
    ensures
        final(out)@ == old(out)@ + enc_response(r@),
{
    out.push(0x94);
    write_failures(out, r.failures());
    write_u64v(out, r.started());
    write_u32v(out, r.duration());
    match r.outcome() {
        Ok(env) => {
            out.push(0x92);
            write_u8v(out, 0);
            write_bin32(out, env.encoded());
        },
        Err(k) => {
            out.push(0x92);
            write_u8v(out, 1);
            write_u8v(out, k.code() as u8);
        },
    }
    assert(out@ =~= old(out)@ + enc_response(r@));
}

// ---------------------------------------------------------------------
// executable parsers
// ---------------------------------------------------------------------
/// Reads an `n`-byte big-endian value.
pub fn read_be(b: &Vec<u8>, i: usize, n: usize) -> (r: u64)
    requires
        n <= 8,
        i + n <= b@.len(),
    ensures
        r == be_val(b@.subrange(i as int, i + n)),
{
    proof {
        lemma_pow256_values();
    }
    let mut acc: u64 = 0;
    let mut k: usize = 0;
    while k < n
        invariant
            n <= 8,
            i + n <= b.len(),
            k <= n,
            acc == be_val(b@.subrange(i as int, i + k)),
        decreases n - k,
    {
        proof {
            lemma_be_val_bound(b@.subrange(i as int, i + k));
            lemma_pow256_mono(k as nat, 7);
            lemma_pow256_values();
            assert(b@.subrange(i as int, i + k + 1).drop_last() =~= b@.subrange(
                i as int,
                i + k,
            ));
            assert(b@.subrange(i as int, i + k + 1).last() == b@[i + k]);
        }
        acc = acc * 256 + (b[i + k] as u64);
        k += 1;
    }
    proof {
        assert(b@.subrange(i as int, i + n) =~= b@.subrange(i as int, i + k));
    }
    acc
}

/// Reads an `n`-byte big-endian value up to 128 bits wide.
pub fn read_be128(b: &Vec<u8>, i: usize, n: usize) -> (r: u128)
    requires
        n <= 16,
        i + n <= b@.len(),
    ensures
        r == be_val(b@.subrange(i as int, i + n)),
{
    proof {
        lemma_pow256_values();
    }
    let mut acc: u128 = 0;
    let mut k: usize = 0;
    while k < n
        invariant
            n <= 16,
            i + n <= b.len(),
            k <= n,
            acc == be_val(b@.subrange(i as int, i + k)),
        decreases n - k,
    {
        proof {
            lemma_be_val_bound(b@.subrange(i as int, i + k));
            lemma_pow256_mono(k as nat, 15);
            lemma_pow256_values();
            assert(b@.subrange(i as int, i + k + 1).drop_last() =~= b@.subrange(
                i as int,
                i + k,
            ));
            assert(b@.subrange(i as int, i + k + 1).last() == b@[i + k]);
        }
        acc = acc * 256 + (b[i + k] as u128);
        k += 1;
    }
    proof {
        assert(b@.subrange(i as int, i + n) =~= b@.subrange(i as int, i + k));
    }
    acc
}

/// Powers of 256 grow with the exponent.
pub proof fn lemma_pow256_mono(a: nat, c: nat)
    requires
        a <= c,
    ensures
        pow256(a) <= pow256(c),
    decreases c,
{
    if a < c {
        lemma_pow256_mono(a, (c - 1) as nat);
        assert(pow256(c) == 256 * pow256((c - 1) as nat));
        lemma_pow256_pos((c - 1) as nat);
    }
}

/// Powers of 256 are positive.
pub proof fn lemma_pow256_pos(n: nat)
    ensures
        pow256(n) >= 1,
    decreases n,
{
    if n > 0 {
        lemma_pow256_pos((n - 1) as nat);
    }
}

/// Parses a tagged unsigned byte.
pub fn parse_u8v(b: &Vec<u8>, i: usize) -> (r: Option<(u8, usize)>)
    requires
        i <= b@.len(),
    ensures
        match r {
            Some((x, j)) => sp_u8v(b@, i as int) == Some((x, j as int)) && j <= b@.len(),
            None => sp_u8v(b@, i as int) is None,
        },
{
    if b.len() - i >= 2 && b[i] == 0xcc {
        Some((b[i + 1], i + 2))
    } else {
        None
    }
}

/// Parses a tagged 16-bit value.
pub fn parse_u16v(b: &Vec<u8>, i: usize) -> (r: Option<(u16, usize)>)
    requires
        i <= b@.len(),
    ensures
        match r {
            Some((x, j)) => sp_u16v(b@, i as int) == Some((x, j as int)) && j <= b@.len(),
            None => sp_u16v(b@, i as int) is None,
        },
{
    if b.len() - i >= 3 && b[i] == 0xcd {
        let v = read_be(b, i + 1, 2);
        proof {
            lemma_be_val_bound(b@.subrange(i + 1, i + 3));
            lemma_pow256_values();
        }
        Some((v as u16, i + 3))
    } else {
        None
    }
}

/// Parses a tagged 32-bit value.
pub fn parse_u32v(b: &Vec<u8>, i: usize) -> (r: Option<(u32, usize)>)
    requires
        i <= b@.len(),
    ensures
        match r {
            Some((x, j)) => sp_u32v(b@, i as int) == Some((x, j as int)) && j <= b@.len(),
            None => sp_u32v(b@, i as int) is None,
        },
{
    if b.len() - i >= 5 && b[i] == 0xce {
        let v = read_be(b, i + 1, 4);
        proof {
            lemma_be_val_bound(b@.subrange(i + 1, i + 5));
            lemma_pow256_values();
        }
        Some((v as u32, i + 5))
    } else {
        None
    }
}

/// Parses a tagged 64-bit value.
pub fn parse_u64v(b: &Vec<u8>, i: usize) -> (r: Option<(u64, usize)>)
    requires
        i <= b@.len(),
    ensures
        match r {
            Some((x, j)) => sp_u64v(b@, i as int) == Some((x, j as int)) && j <= b@.len(),
            None => sp_u64v(b@, i as int) is None,
        },
{
    if b.len() - i >= 9 && b[i] == 0xcf {
        let v = read_be(b, i + 1, 8);
        Some((v, i + 9))
    } else {
        None
    }
}

/// Parses a boolean tag.
pub fn parse_boolv(b: &Vec<u8>, i: usize) -> (r: Option<(bool, usize)>)
    requires
        i <= b@.len(),
    ensures
        match r {
            Some((x, j)) => sp_boolv(b@, i as int) == Some((x, j as int)) && j <= b@.len(),
            None => sp_boolv(b@, i as int) is None,
        },
{
    if b.len() - i >= 1 && (b[i] == 0xc2 || b[i] == 0xc3) {
        Some((b[i] == 0xc3, i + 1))
    } else {
        None
    }
}

/// Parses a short byte string.
pub fn parse_bin8(b: &Vec<u8>, i: usize) -> (r: Option<(Vec<u8>, usize)>)
    requires
        i <= b@.len(),
    ensures
        match r {
            Some((x, j)) => sp_bin8(b@, i as int) == Some((x@, j as int)) && j <= b@.len(),
            None => sp_bin8(b@, i as int) is None,
        },
{
    if b.len() - i >= 2 && b[i] == 0xc4 {
        let l = b[i + 1] as usize;
        if b.len() - (i + 2) >= l {
            let s = copy_range(b, i + 2, i + 2 + l);
            Some((s, i + 2 + l))
        } else {
            None
        }
    } else {
        None
    }
}

/// Parses a byte string with a four-byte length.
pub fn parse_bin32(b: &Vec<u8>, i: usize) -> (r: Option<(Vec<u8>, usize)>)
    requires
        i <= b@.len(),
    ensures
        match r {
            Some((x, j)) => sp_bin32(b@, i as int) == Some((x@, j as int)) && j <= b@.len()
                && x@.len() <= u32::MAX,
            None => sp_bin32(b@, i as int) is None,
        },
{
    if b.len() - i >= 5 && b[i] == 0xc6 {
        let l64 = read_be(b, i + 1, 4);
        proof {
            lemma_be_val_bound(b@.subrange(i + 1, i + 5));
            lemma_pow256_values();
        }
        let l = l64 as usize;
        if b.len() - (i + 5) >= l {
            let s = copy_range(b, i + 5, i + 5 + l);
            Some((s, i + 5 + l))
        } else {
            None
        }
    } else {
        None
    }
}

/// Parses an error kind from its stable code.
pub fn parse_kind(b: &Vec<u8>, i: usize) -> (r: Option<(ErrorKind, usize)>)
    requires
        i <= b@.len(),
    ensures
        match r {
            Some((x, j)) => sp_kind(b@, i as int) == Some((x, j as int)) && j <= b@.len(),
            None => sp_kind(b@, i as int) is None,
        },
{
    match parse_u8v(b, i) {
        None => None,
        Some((c, j)) => match c {
            1 => Some((ErrorKind::Internal, j)),
            2 => Some((ErrorKind::Io, j)),
            3 => Some((ErrorKind::Protocol, j)),
            4 => Some((ErrorKind::Timeout, j)),
            5 => Some((ErrorKind::Lock, j)),
            _ => None,
        },
    }
}

/// Parses a transport code.
pub fn parse_proto(b: &Vec<u8>, i: usize) -> (r: Option<(Protocol, usize)>)
    requires
        i <= b@.len(),
    ensures
        match r {
            Some((x, j)) => sp_proto(b@, i as int) == Some((x, j as int)) && j <= b@.len(),
            None => sp_proto(b@, i as int) is None,
        },
{
    match parse_u8v(b, i) {
        None => None,
        Some((c, j)) => match c {
            1 => Some((Protocol::Udp, j)),
            2 => Some((Protocol::Tcp, j)),
            _ => None,
        },
    }
}

/// Parses a server address.
pub fn parse_ip(b: &Vec<u8>, i: usize) -> (r: Option<(IpAddress, usize)>)
    requires
        i <= b@.len(),
    ensures
        match r {
            Some((x, j)) => sp_ip(b@, i as int) == Some((x, j as int)) && j <= b@.len(),
            None => sp_ip(b@, i as int) is None,
        },
{
    if b.len() - i >= 2 && b[i] == 0xc4 {
        let l = b[i + 1] as usize;
        if b.len() - (i + 2) >= l {
            let ghost octets = b@.subrange(i + 2, i + 2 + l);
            if l == 4 {
                let v = read_be(b, i + 2, 4);
                proof {
                    lemma_be_val_bound(octets);
                    lemma_pow256_values();
                }
                Some((IpAddress::V4(v as u32), i + 6))
            } else if l == 16 {
                let v = read_be128(b, i + 2, 16);
                proof {
                    lemma_be_val_bound(octets);
                    lemma_pow256_values();
                }
                Some((IpAddress::V6(v as u128), i + 18))
            } else {
                None
            }
        } else {
            None
        }
    } else {
        None
    }
}

/// Parses one failed attempt.
pub fn parse_failure(b: &Vec<u8>, i: usize) -> (r: Option<(Failure, usize)>)
    requires
        i <= b@.len(),
    ensures
        match r {
            Some((x, j)) => sp_failure(b@, i as int) == Some((x, j as int)) && j <= b@.len(),
            None => sp_failure(b@, i as int) is None,
        },
{
    if b.len() - i >= 1 && b[i] == 0x93 {
        match parse_u64v(b, i + 1) {
            None => None,
            Some((query_start, i2)) => match parse_u32v(b, i2) {
                None => None,
                Some((query_duration, i3)) => match parse_kind(b, i3) {
                    None => None,
                    Some((kind, i4)) => Some((
                        Failure { query_start, query_duration, kind },
                        i4,
                    )),
                },
            },
        }
    } else {
        None
    }
}

/// Parses a failure list, checking the chronological order as it goes.
pub fn parse_failures(b: &Vec<u8>, i: usize) -> (r: Option<(Vec<Failure>, usize)>)
    requires
        i <= b@.len(),
    ensures
        match r {
            Some((x, j)) => sp_failures(b@, i as int) == Some((x@, j as int)) && j <= b@.len()
                && chronological(x@) && x@.len() <= u16::MAX,
            None => sp_failures(b@, i as int) is None,
        },
{
    if !(b.len() - i >= 3 && b[i] == 0xdc) {
        return None;
    }
    let count64 = read_be(b, i + 1, 2);
    proof {
        lemma_be_val_bound(b@.subrange(i + 1, i + 3));
        lemma_pow256_values();
    }
    let count = count64 as usize;
    let ghost total = count as nat;
    let mut out: Vec<Failure> = Vec::new();
    let mut pos: usize = i + 3;
    let mut done: usize = 0;
    while done < count
        invariant
            i + 3 <= b.len(),
            b@[i as int] == 0xdcu8,
            total == be_val(b@.subrange(i + 1, i + 3)),
            total <= u16::MAX,
            done <= count,
            pos <= b.len(),
            count as nat == total,
            chronological(out@),
            out@.len() == done,
            forall|k: int|
                0 <= k < out@.len() ==> (#[trigger] out@[k]).query_start
                    <= out@.last().query_start,
            sp_failure_items(b@, i + 3, total) == match sp_failure_items(
                b@,
                pos as int,
                (count - done) as nat,
            ) {
                Some((rest, k)) => Some((out@ + rest, k)),
                None => None::<(Seq<Failure>, int)>,
            },
        decreases count - done,
    {
        let ghost rem = (count - done) as nat;
        match parse_failure(b, pos) {
            None => {
                proof {
                    assert(sp_failure_items(b@, pos as int, rem) is None);
                    assert(sp_failure_items(b@, i + 3, total) is None);
                }
                return None;
            },
            Some((f, j)) => {
                if out.len() > 0 && f.query_start < out[out.len() - 1].query_start {
                    // out of order: the whole list cannot be chronological
                    proof {
                        match sp_failure_items(b@, j as int, (rem - 1) as nat) {
                            None => {
                                assert(sp_failure_items(b@, i + 3, total) is None);
                            },
                            Some((rest2, k2)) => {
                                let fs = out@ + (seq![f] + rest2);
                                assert(sp_failure_items(b@, pos as int, rem) == Some(
                                    (seq![f] + rest2, k2),
                                ));
                                assert(sp_failure_items(b@, i + 3, total) == Some((fs, k2)));
                                let li = out@.len() - 1;
                                assert(fs[li] == out@[li]);
                                assert(fs[li + 1] == f);
                                assert(!chronological(fs));
                                match sp_failures(b@, i as int) {
                                    None => {},
                                    Some(_) => {
                                        assert(false);
                                    },
                                }
                            },
                        }
                    }
                    return None;
                }
                let ghost out_old = out@;
                out.push(f);
                proof {
                    assert(out@ =~= out_old.push(f));
                    assert(chronological(out@)) by {
                        assert forall|x: int, y: int|
                            0 <= x < y < out@.len() implies #[trigger] out@[x].query_start
                            <= #[trigger] out@[y].query_start by {
                            if y < out@.len() - 1 {
                                assert(out@[x] == out_old[x]);
                                assert(out@[y] == out_old[y]);
                            } else {
                                if x < out@.len() - 1 {
                                    assert(out@[x] == out_old[x]);
                                    if out_old.len() > 0 {
                                        assert(out_old[x].query_start
                                            <= out_old.last().query_start);
                                    }
                                }
                            }
                        }
                    }
                    match sp_failure_items(b@, j as int, (rem - 1) as nat) {
                        None => {},
                        Some((rest2, k2)) => {
                            assert(out_old + (seq![f] + rest2) =~= out@ + rest2);
                        },
                    }
                }
                pos = j;
                done += 1;
            },
        }
    }
    proof {
        assert(sp_failure_items(b@, pos as int, 0) == Some((Seq::<Failure>::empty(), pos as int)));
        assert(out@ + Seq::<Failure>::empty() =~= out@);
        assert(sp_failure_items(b@, i + 3, total) == Some((out@, pos as int)));
    }
    Some((out, pos))
}

/// Parses a final outcome.
pub fn parse_outcome(b: &Vec<u8>, i: usize) -> (r: Option<
    (Result<Vec<u8>, ErrorKind>, usize),
>)
    requires
        i <= b@.len(),
    ensures
        match r {
            Some((x, j)) => ({
                &&& j <= b@.len()
                &&& match x {
                    Ok(bytes) => sp_outcome(b@, i as int) == Some(
                        (Ok::<Seq<u8>, ErrorKind>(bytes@), j as int),
                    ) && bytes@.len() <= u32::MAX,
                    Err(k) => sp_outcome(b@, i as int) == Some(
                        (Err::<Seq<u8>, ErrorKind>(k), j as int),
                    ),
                }
            }),
            None => sp_outcome(b@, i as int) is None,
        },
{
    if !(b.len() - i >= 1 && b[i] == 0x92) {
        return None;
    }
    match parse_u8v(b, i + 1) {
        None => None,
        Some((t, i2)) => {
            if t == 0 {
                match parse_bin32(b, i2) {
                    None => None,
                    Some((bytes, i3)) => Some((Ok(bytes), i3)),
                }
            } else if t == 1 {
                match parse_kind(b, i2) {
                    None => None,
                    Some((k, i3)) => Some((Err(k), i3)),
                }
            } else {
                None
            }
        },
    }
}

/// Parses a stored record, rebuilding the envelope from its bytes.
pub fn parse_response(b: &Vec<u8>, i: usize) -> (r: Option<(RetriedResponse, usize)>)
    requires
        i <= b@.len(),
    ensures
        match r {
            Some((x, j)) => sp_response(b@, i as int) == Some((x@, j as int)) && j <= b@.len()
                && x.wf(),
            None => sp_response(b@, i as int) is None,
        },
{
    if !(b.len() - i >= 1 && b[i] == 0x94) {
        return None;
    }
    match parse_failures(b, i + 1) {
        None => None,
        Some((failures, i2)) => match parse_u64v(b, i2) {
            None => None,
            Some((started, i3)) => match parse_u32v(b, i3) {
                None => None,
                Some((duration, i4)) => match parse_outcome(b, i4) {
                    None => None,
                    Some((outcome, i5)) => {
                        let resp = RetriedResponse::from_parts(
                            failures,
                            started,
                            duration,
                            outcome,
                        );
                        Some((resp, i5))
                    },
                },
            },
        },
    }
}

/// Parses a name, rejecting what the name rules refuse.
pub fn parse_name(b: &Vec<u8>, i: usize) -> (r: Option<(DnsName, usize)>)
    requires
        i <= b@.len(),
    ensures
        match r {
            Some((x, j)) => sp_name(b@, i as int) == Some((x@, j as int)) && j <= b@.len()
                && x.wf(),
            None => sp_name(b@, i as int) is None,
        },
{
    if !(b.len() - i >= 3 && b[i] == 0xdc) {
        return None;
    }
    let count64 = read_be(b, i + 1, 2);
    proof {
        lemma_be_val_bound(b@.subrange(i + 1, i + 3));
        lemma_pow256_values();
    }
    let count = count64 as usize;
    let ghost total = count as nat;
    let mut ls: Vec<Vec<u8>> = Vec::new();
    let mut pos: usize = i + 3;
    let mut done: usize = 0;
    while done < count
        invariant
            i + 3 <= b.len(),
            b@[i as int] == 0xdcu8,
            total == be_val(b@.subrange(i + 1, i + 3)),
            done <= count,
            pos <= b.len(),
            count as nat == total,
            ls@.len() == done,
            sp_labels(b@, i + 3, total) == match sp_labels(
                b@,
                pos as int,
                (count - done) as nat,
            ) {
                Some((rest, k)) => Some((ls.deep_view() + rest, k)),
                None => None::<(Seq<Seq<u8>>, int)>,
            },
        decreases count - done,
    {
        let ghost rem = (count - done) as nat;
        match parse_bin8(b, pos) {
            None => {
                proof {
                    assert(sp_labels(b@, pos as int, rem) is None);
                    assert(sp_labels(b@, i + 3, total) is None);
                }
                return None;
            },
            Some((l, j)) => {
                let ghost dv_old = ls.deep_view();
                proof {
                    assert(l.deep_view() =~= l@);
                }
                ls.push(l);
                proof {
                    assert(ls.deep_view() =~= dv_old.push(ls.deep_view().last()));
                    match sp_labels(b@, j as int, (rem - 1) as nat) {
                        None => {},
                        Some((rest2, k2)) => {
                            assert(dv_old + (seq![ls.deep_view().last()] + rest2)
                                =~= ls.deep_view() + rest2);
                        },
                    }
                }
                pos = j;
                done += 1;
            },
        }
    }
    let ghost ls_full = ls.deep_view();
    proof {
        assert(sp_labels(b@, pos as int, 0) == Some((Seq::<Seq<u8>>::empty(), pos as int)));
        assert(ls_full + Seq::<Seq<u8>>::empty() =~= ls_full);
        assert(sp_labels(b@, i + 3, total) == Some((ls_full, pos as int)));
    }
    let ghost spec_fqdn = ls_full.len() > 0 && ls_full.last().len() == 0;
    let mut fqdn = false;
    if ls.len() > 0 && ls[ls.len() - 1].len() == 0 {
        fqdn = true;
        let ghost dv_before = ls.deep_view();
        let _ = ls.pop();
        proof {
            assert(ls.deep_view() =~= dv_before.drop_last());
        }
    }
    proof {
        assert(fqdn == spec_fqdn);
        if spec_fqdn {
            assert(ls.deep_view() == ls_full.drop_last());
        } else {
            assert(ls.deep_view() == ls_full);
        }
    }
    let ghost spec_labels = if spec_fqdn {
        ls_full.drop_last()
    } else {
        ls_full
    };
    match DnsName::from_labels(ls, fqdn) {
        Some(n) => {
            proof {
                assert(n@ == (NameV { labels: spec_labels, fqdn: spec_fqdn }));
                assert(sp_name(b@, i as int) == Some((n@, pos as int)));
            }
            Some((n, pos))
        },
        None => {
            proof {
                assert(!(NameV { labels: spec_labels, fqdn: spec_fqdn }).wf());
                assert(sp_name(b@, i as int) is None);
            }
            None
        },
    }
}

/// Parses optional EDNS settings.
pub fn parse_edns(b: &Vec<u8>, i: usize) -> (r: Option<(Option<EdnsConfig>, usize)>)
    requires
        i <= b@.len(),
    ensures
        match r {
            Some((x, j)) => ({
                &&& j <= b@.len()
                &&& match x {
                    Some(c) => sp_edns(b@, i as int) == Some((Some(c@), j as int))
                        && c.option_value@.len() <= u32::MAX,
                    None => sp_edns(b@, i as int) == Some(
                        (None::<EdnsV>, j as int),
                    ),
                }
            }),
            None => sp_edns(b@, i as int) is None,
        },
{
    if b.len() - i >= 1 && b[i] == 0xc0 {
        return Some((None, i + 1));
    }
    if !(b.len() - i >= 1 && b[i] == 0x95) {
        return None;
    }
    match parse_u8v(b, i + 1) {
        None => None,
        Some((version, i2)) => match parse_boolv(b, i2) {
            None => None,
            Some((dnssec_ok, i3)) => match parse_u16v(b, i3) {
                None => None,
                Some((max_payload, i4)) => match parse_u16v(b, i4) {
                    None => None,
                    Some((option_code, i5)) => match parse_bin32(b, i5) {
                        None => None,
                        Some((option_value, i6)) => Some((
                            Some(
                                EdnsConfig {
                                    version,
                                    dnssec_ok,
                                    max_payload,
                                    option_code,
                                    option_value,
                                },
                            ),
                            i6,
                        )),
                    },
                },
            },
        },
    }
}

/// Parses a question.
pub fn parse_question(b: &Vec<u8>, i: usize) -> (r: Option<(Question, usize)>)
    requires
        i <= b@.len(),
    ensures
        match r {
            Some((x, j)) => sp_question(b@, i as int) == Some((x@, j as int)) && j <= b@.len()
                && x.wf(),
            None => sp_question(b@, i as int) is None,
        },
{
    if !(b.len() - i >= 1 && b[i] == 0x95) {
        return None;
    }
    match parse_name(b, i + 1) {
        None => None,
        Some((qname, i2)) => match parse_u16v(b, i2) {
            None => None,
            Some((qtype, i3)) => match parse_proto(b, i3) {
                None => None,
                Some((proto, i4)) => match parse_boolv(b, i4) {
                    None => None,
                    Some((recursion_desired, i5)) => match parse_edns(b, i5) {
                        None => None,
                        Some((edns_config, i6)) => {
                            let q = Question {
                                qname,
                                qtype,
                                proto,
                                recursion_desired,
                                edns_config,
                            };
                            proof {
                                assert(sp_question(b@, i as int) == Some((q@, i6 as int)));
                            }
                            Some((q, i6))
                        },
                    },
                },
            },
        },
    }
}

} // verus!
