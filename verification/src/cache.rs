//! The coordinating store: a two-level map from question to server to the
//! stored probe outcome, with at-most-once resolution, a cooperative
//! reading lock, and projection to the caller-facing result shape.

use vstd::prelude::*;

use std::rc::Rc;
use trust_dns_client::op::Message;

use crate::codec::distinct_bucket_keys;
use crate::codec::distinct_question_keys;
use crate::codec::enc_entries;
use crate::codec::entries_wf;
use crate::codec::lemma_be_val_bound;
use crate::codec::lemma_pow256_values;
use crate::codec::parse_ip;
use crate::codec::parse_question;
use crate::codec::parse_response;
use crate::codec::read_be;
use crate::codec::sp_bucket;
use crate::codec::sp_bucket_items;
use crate::codec::sp_cache;
use crate::codec::sp_entries;
use crate::codec::sp_entry_items;
use crate::codec::be_val;
use crate::codec::be_bytes;
use crate::codec::enc_bucket;
use crate::codec::enc_bucket_items;
use crate::codec::enc_entry_items;
use crate::codec::write_be;
use crate::codec::write_ip;
use crate::codec::write_question;
use crate::codec::write_response;
use crate::codec::DecodeError;
use crate::envelope::decode_ok;
use crate::envelope::MessageEnvelope;
use crate::error::ErrorKind;
use crate::ip::IpAddress;
use crate::net::Failure;
use crate::net::ResponseV;
use crate::net::RetriedResponse;
use crate::question::Question;
use crate::question::QuestionV;

verus! {

/// The model of one server bucket: server/record pairs in insertion order.
pub type BucketV = Seq<(IpAddress, ResponseV)>;

/// The model of the whole store: question/bucket pairs in insertion order.
pub type EntriesV = Seq<(QuestionV, BucketV)>;

/// The first record stored for `s`, scanning front to back.
pub open spec fn bucket_get(b: BucketV, s: IpAddress) -> Option<ResponseV>
    decreases b.len(),
{
    if b.len() == 0 {
        None
    } else if b[0].0 == s {
        Some(b[0].1)
    } else {
        bucket_get(b.drop_first(), s)
    }
}

/// The first bucket stored for `q`, scanning front to back.
pub open spec fn entries_get(es: EntriesV, q: QuestionV) -> Option<BucketV>
    decreases es.len(),
{
    if es.len() == 0 {
        None
    } else if es[0].0 == q {
        Some(es[0].1)
    } else {
        entries_get(es.drop_first(), q)
    }
}

/// The record stored for `(q, s)`, if any.
pub open spec fn cache_get(es: EntriesV, q: QuestionV, s: IpAddress) -> Option<ResponseV> {
    match entries_get(es, q) {
        None => None,
        Some(b) => bucket_get(b, s),
    }
}

/// The model of a [`SingleResponse`]: the decoded message is represented by
/// the packet size alone.
#[verifier::ext_equal]
pub struct SRespV {
    pub started: u64,
    pub duration: u32,
    pub outcome: Result<u16, ErrorKind>,
}

/// The caller-facing projection of one stored record: the final attempt's
/// timing, and either the shared decoded message with the packet size, or
/// the error kind.
pub struct SingleResponse {
    pub started: u64,
    pub duration: u32,
    pub outcome: Result<(Rc<Message>, u16), ErrorKind>,
}

impl View for SingleResponse {
    type V = SRespV;

    open spec fn view(&self) -> SRespV {
        SRespV {
            started: self.started,
            duration: self.duration,
            outcome: match self.outcome {
                Ok((_, size)) => Ok(size),
                Err(k) => Err(k),
            },
        }
    }
}

/// How a stored record is served to a caller: a retained packet that does
/// not decode is reported as a protocol error; the packet size is the
/// encoded length, truncated to sixteen bits.
pub open spec fn project(r: ResponseV) -> SRespV {
    SRespV {
        started: r.started,
        duration: r.duration,
        outcome: match r.outcome {
            Ok(bytes) => if decode_ok(bytes) {
                Ok((bytes.len() % 0x10000) as u16)
            } else {
                Err(ErrorKind::Protocol)
            },
            Err(k) => Err(k),
        },
    }
}

/// The pure lookup result: for each requested server, in request order, the
/// projection of its stored record; servers without a record are absent.
pub open spec fn spec_lookup(es: EntriesV, q: QuestionV, servers: Seq<IpAddress>) -> Seq<
    (IpAddress, SRespV),
>
    decreases servers.len(),
{
    if servers.len() == 0 {
        Seq::empty()
    } else {
        spec_lookup(es, q, servers.drop_last()) + match cache_get(es, q, servers.last()) {
            Some(r) => seq![(servers.last(), project(r))],
            None => Seq::empty(),
        }
    }
}

/// The servers among `servers`, in request order, that have no stored
/// record for `q`.
pub open spec fn spec_pending(es: EntriesV, q: QuestionV, servers: Seq<IpAddress>) -> Seq<IpAddress>
    decreases servers.len(),
{
    if servers.len() == 0 {
        Seq::empty()
    } else {
        spec_pending(es, q, servers.drop_last()) + if cache_get(es, q, servers.last()) is None {
            seq![servers.last()]
        } else {
            Seq::empty()
        }
    }
}

/// What a locked cache answers for each requested server: zero timings and
/// the `Lock` error.
pub open spec fn spec_locked(servers: Seq<IpAddress>) -> Seq<(IpAddress, SRespV)> {
    servers.map_values(
        |s: IpAddress| (s, SRespV { started: 0, duration: 0, outcome: Err(ErrorKind::Lock) }),
    )
}

/// Exec results matched against their model, pair by pair.
pub open spec fn lookup_matches(
    r: Seq<(IpAddress, SingleResponse)>,
    s: Seq<(IpAddress, SRespV)>,
) -> bool {
    &&& r.len() == s.len()
    &&& forall|i: int| 0 <= i < r.len() ==> (#[trigger] r[i]).0 == s[i].0 && r[i].1@ == s[i].1
}

/// The `(question, server)` pairs of one entry.
pub open spec fn entry_pairs(e: (QuestionV, BucketV)) -> Seq<(QuestionV, IpAddress)> {
    e.1.map_values(|p: (IpAddress, ResponseV)| (e.0, p.0))
}

/// The `(question, server)` pairs of the first `i` entries.
pub open spec fn spec_pairs_upto(es: EntriesV, i: int) -> Seq<(QuestionV, IpAddress)>
    decreases i,
{
    if i <= 0 {
        Seq::empty()
    } else {
        spec_pairs_upto(es, i - 1) + entry_pairs(es[i - 1])
    }
}

/// All `(question, server)` pairs present in the store, grouped by question
/// in insertion order.
pub open spec fn spec_pairs(es: EntriesV) -> Seq<(QuestionV, IpAddress)> {
    spec_pairs_upto(es, es.len() as int)
}

/// Exec pairs matched against their model.
pub open spec fn pairs_match(
    r: Seq<(Question, IpAddress)>,
    s: Seq<(QuestionV, IpAddress)>,
) -> bool {
    &&& r.len() == s.len()
    &&& forall|i: int| 0 <= i < r.len() ==> (#[trigger] r[i]).0@ == s[i].0 && r[i].1 == s[i].1
}

struct SEntry {
    server: IpAddress,
    response: RetriedResponse,
}

struct QEntry {
    question: Question,
    bucket: Vec<SEntry>,
}

/// The model of a bucket's entry list.
spec fn sentries_view(s: Seq<SEntry>) -> BucketV {
    s.map_values(|se: SEntry| (se.server, se.response@))
}

/// The model of the store's entry list.
spec fn qentries_view(s: Seq<QEntry>) -> EntriesV {
    s.map_values(|qe: QEntry| (qe.question@, qe.bucket_view()))
}

impl QEntry {
    spec fn bucket_view(self) -> BucketV {
        sentries_view(self.bucket@)
    }
}

/// A callback invoked once per stored `(question, server)` pair. The cache
/// hands itself back so the callback may issue nested lookups; it arrives
/// with its reading lock raised, under which every mutating call is a
/// proved no-op, so a visitor can meet the preservation clauses below with
/// any mix of the cache's own operations.
pub trait RequestVisitor {
    /// The pairs this visitor has been shown so far, oldest first.
    spec fn observed(&self) -> Seq<(QuestionV, IpAddress)>;

    /// One visit: the store, its well-formedness and the raised reading
    /// lock are left as found, and the shown pair is appended to the
    /// visitor's observations.
    fn visit(&mut self, cache: &mut Cache, question: &Question, server: IpAddress)
        requires
            old(cache).wf(),
            old(cache).spec_reading(),
        ensures
            final(cache).wf(),
            final(cache).entries_view() == old(cache).entries_view(),
            final(cache).spec_reading() == old(cache).spec_reading(),
            final(self).observed() == old(self).observed().push((question@, server)),
    ;
}

/// A callback invoked once per recorded failure of one stored record, in
/// chronological order; the same reading-lock discipline as for
/// [`RequestVisitor`] applies.
pub trait RetryVisitor {
    /// The failures this visitor has been shown so far, oldest first.
    spec fn observed(&self) -> Seq<Failure>;

    /// One visit: the store, its well-formedness and the raised reading
    /// lock are left as found, and the shown failure is appended to the
    /// visitor's observations.
    fn visit(&mut self, cache: &mut Cache, query_start: u64, query_duration: u32, kind: ErrorKind)
        requires
            old(cache).wf(),
            old(cache).spec_reading(),
        ensures
            final(cache).wf(),
            final(cache).entries_view() == old(cache).entries_view(),
            final(cache).spec_reading() == old(cache).spec_reading(),
            final(self).observed() == old(self).observed().push(
                Failure { query_start, query_duration, kind },
            ),
    ;
}

/// The plan for a lookup that may resolve over the network.
pub enum LookupPlan {
    /// The cache is being iterated: every requested server is answered with
    /// the `Lock` error and nothing may be recorded.
    Locked(Vec<(IpAddress, SingleResponse)>),
    /// Servers already resolved, served from the store, and the servers
    /// still to be queried, in request order.
    Split(Vec<(IpAddress, SingleResponse)>, Vec<IpAddress>),
}

/// The memo store. A `(question, server)` pair resolves at most once per
/// cache lifetime: once a record is stored it is only ever served, never
/// overwritten.
pub struct Cache {
    entries: Vec<QEntry>,
    reading: bool,
}

impl Cache {
    /// The store's model.
    pub closed spec fn entries_view(self) -> EntriesV {
        qentries_view(self.entries@)
    }

    /// Whether an iteration is in progress.
    pub closed spec fn spec_reading(self) -> bool {
        self.reading
    }

    /// Well-formedness: distinct questions, distinct servers per bucket,
    /// well-formed questions and records, and sizes the on-disk format can
    /// carry.
    pub open spec fn wf(self) -> bool {
        &&& crate::codec::entries_wf(self.entries_view())
        &&& self.responses_wf()
    }

    /// Every stored record's envelope is consistent with its bytes.
    pub closed spec fn responses_wf(self) -> bool {
        forall|i: int|
            0 <= i < self.entries@.len() ==> {
                let b = (#[trigger] self.entries@[i]).bucket;
                forall|x: int| 0 <= x < b@.len() ==> (#[trigger] b@[x]).response.wf()
            }
    }

    /// An empty store, not being iterated.
    pub fn new() -> (r: Cache)
        ensures
            r.wf(),
            r.entries_view() == Seq::<(QuestionV, BucketV)>::empty(),
            !r.spec_reading(),
    {
        let r = Cache { entries: Vec::new(), reading: false };
        assert(r.entries_view() =~= Seq::<(QuestionV, BucketV)>::empty());
        r
    }

    /// The index of the bucket for `question`, if one exists.
    fn find_question(&self, question: &Question) -> (r: Option<usize>)
        ensures
            match r {
                Some(i) => i < self.entries_view().len() && self.entries_view()[i as int].0
                    == question@ && entries_get(self.entries_view(), question@) == Some(
                    self.entries_view()[i as int].1,
                ),
                None => entries_get(self.entries_view(), question@) is None,
            },
    {
        let ghost es = self.entries_view();
        let ghost q = question@;
        proof {
            assert(es.skip(0) =~= es);
        }
        let mut i: usize = 0;
        while i < self.entries.len()
            invariant
                es == self.entries_view(),
                q == question@,
                i <= es.len(),
                es.len() == self.entries@.len(),
                entries_get(es, q) == entries_get(es.skip(i as int), q),
            decreases es.len() - i,
        {
            proof {
                assert(es.skip(i as int)[0] == es[i as int]);
            }
            if self.entries[i].question.same_as(question) {
                return Some(i);
            }
            proof {
                assert(es.skip(i as int).drop_first() =~= es.skip(i + 1));
            }
            i += 1;
        }
        proof {
            assert(es.skip(es.len() as int) =~= Seq::<(QuestionV, BucketV)>::empty());
        }
        None
    }

    /// Serves requested servers from the store: one result per server with
    /// a record, in request order; servers without a record are absent.
    /// The store is not consulted over the network and never changes.
    pub fn lookup(&self, question: &Question, servers: &Vec<IpAddress>) -> (r: Vec<
        (IpAddress, SingleResponse)>)
        requires
            self.wf(),
        ensures
            lookup_matches(r@, spec_lookup(self.entries_view(), question@, servers@)),
    {
        let ghost es = self.entries_view();
        let ghost q = question@;
        let mut out: Vec<(IpAddress, SingleResponse)> = Vec::new();
        let bucket_idx = self.find_question(question);
        let mut i: usize = 0;
        while i < servers.len()
            invariant
                self.wf(),
                es == self.entries_view(),
                q == question@,
                i <= servers@.len(),
                match bucket_idx {
                    Some(bi) => bi < es.len() && es[bi as int].0 == q && entries_get(es, q)
                        == Some(es[bi as int].1),
                    None => entries_get(es, q) is None,
                },
                lookup_matches(out@, spec_lookup(es, q, servers@.take(i as int))),
            decreases servers@.len() - i,
        {
            let ghost prefix = servers@.take(i as int);
            let ghost prefix1 = servers@.take(i + 1);
            proof {
                assert(prefix1.drop_last() =~= prefix);
                assert(prefix1.last() == servers@[i as int]);
            }
            let s = servers[i];
            match bucket_idx {
                Some(bi) => {
                    let entry = &self.entries[bi];
                    match find_server(&entry.bucket, s) {
                        Some(si) => {
                            let ghost b = es[bi as int].1;
                            proof {
                                assert(b == entry.bucket_view());
                                assert(b[si as int] == (
                                    entry.bucket@[si as int].server,
                                    entry.bucket@[si as int].response@,
                                ));
                                assert(cache_get(es, q, s) == Some(b[si as int].1));
                            }
                            let resp = single_response_of(&entry.bucket[si].response);
                            out.push((s, resp));
                        },
                        None => {
                            proof {
                                assert(cache_get(es, q, s) is None);
                                assert(spec_lookup(es, q, prefix1) == spec_lookup(es, q, prefix));
                            }
                        },
                    }
                },
                None => {
                    proof {
                        assert(cache_get(es, q, s) is None);
                        assert(spec_lookup(es, q, prefix1) == spec_lookup(es, q, prefix));
                    }
                },
            }
            i += 1;
        }
        proof {
            assert(servers@.take(servers@.len() as int) =~= servers@);
        }
        out
    }
}

/// Whether one more record can be stored for `q` without exceeding what
/// the on-disk format can carry.
pub open spec fn can_insert(es: EntriesV, q: QuestionV) -> bool {
    match entries_get(es, q) {
        None => es.len() < u32::MAX,
        Some(b) => b.len() < u32::MAX,
    }
}

impl Cache {
    /// Begins a lookup that may resolve over the network. While the cache
    /// is being iterated, every requested server is answered with the
    /// `Lock` error; otherwise the request is split into servers served
    /// from the store and servers still to be queried.
    pub fn lookup_plan(&self, question: &Question, servers: &Vec<IpAddress>) -> (r: LookupPlan)
        requires
            self.wf(),
        ensures
            match r {
                LookupPlan::Locked(v) => self.spec_reading() && lookup_matches(
                    v@,
                    spec_locked(servers@),
                ),
                LookupPlan::Split(ready, pending) => !self.spec_reading() && lookup_matches(
                    ready@,
                    spec_lookup(self.entries_view(), question@, servers@),
                ) && pending@ == spec_pending(self.entries_view(), question@, servers@),
            },
    {
        if self.reading {
            let mut out: Vec<(IpAddress, SingleResponse)> = Vec::new();
            let mut i: usize = 0;
            while i < servers.len()
                invariant
                    i <= servers@.len(),
                    out@.len() == i,
                    forall|k: int|
                        0 <= k < i ==> (#[trigger] out@[k]).0 == servers@[k] && out@[k].1@ == (
                        SRespV { started: 0, duration: 0, outcome: Err(ErrorKind::Lock) }),
                decreases servers@.len() - i,
            {
                let resp = SingleResponse {
                    started: 0,
                    duration: 0,
                    outcome: Err(ErrorKind::Lock),
                };
                out.push((servers[i], resp));
                i += 1;
            }
            assert(lookup_matches(out@, spec_locked(servers@)));
            LookupPlan::Locked(out)
        } else {
            let ghost es = self.entries_view();
            let ghost q = question@;
            let mut ready: Vec<(IpAddress, SingleResponse)> = Vec::new();
            let mut pending: Vec<IpAddress> = Vec::new();
            let bucket_idx = self.find_question(question);
            let mut i: usize = 0;
            while i < servers.len()
                invariant
                    self.wf(),
                    es == self.entries_view(),
                    q == question@,
                    i <= servers@.len(),
                    match bucket_idx {
                        Some(bi) => bi < es.len() && es[bi as int].0 == q && entries_get(es, q)
                            == Some(es[bi as int].1),
                        None => entries_get(es, q) is None,
                    },
                    lookup_matches(ready@, spec_lookup(es, q, servers@.take(i as int))),
                    pending@ == spec_pending(es, q, servers@.take(i as int)),
                decreases servers@.len() - i,
            {
                let ghost prefix = servers@.take(i as int);
                let ghost prefix1 = servers@.take(i + 1);
                proof {
                    assert(prefix1.drop_last() =~= prefix);
                    assert(prefix1.last() == servers@[i as int]);
                }
                let s = servers[i];
                let mut found = false;
                match bucket_idx {
                    Some(bi) => {
                        let entry = &self.entries[bi];
                        match find_server(&entry.bucket, s) {
                            Some(si) => {
                                let ghost b = es[bi as int].1;
                                proof {
                                    assert(b == entry.bucket_view());
                                    assert(b[si as int] == (
                                        entry.bucket@[si as int].server,
                                        entry.bucket@[si as int].response@,
                                    ));
                                    assert(cache_get(es, q, s) == Some(b[si as int].1));
                                }
                                let resp = single_response_of(&entry.bucket[si].response);
                                ready.push((s, resp));
                                found = true;
                            },
                            None => {
                                proof {
                                    assert(cache_get(es, q, s) is None);
                                }
                            },
                        }
                    },
                    None => {
                        proof {
                            assert(cache_get(es, q, s) is None);
                        }
                    },
                }
                if !found {
                    pending.push(s);
                    proof {
                        assert(spec_lookup(es, q, prefix1) == spec_lookup(es, q, prefix));
                        assert(pending@ =~= spec_pending(es, q, prefix1));
                    }
                }
                i += 1;
            }
            proof {
                assert(servers@.take(servers@.len() as int) =~= servers@);
            }
            LookupPlan::Split(ready, pending)
        }
    }

    /// Stores the outcome of a freshly resolved `(question, server)` probe
    /// and reports whether it was stored. Nothing is stored — and the store
    /// is left untouched — while the cache is being iterated, when a record
    /// for the pair already exists, or when the store is at the size limit
    /// of its on-disk format; the stored record is served from then on.
    pub fn record_response(
        &mut self,
        question: &Question,
        server: IpAddress,
        response: RetriedResponse,
    ) -> (r: bool)
        requires
            old(self).wf(),
            question.wf(),
            response.wf(),
        ensures
            final(self).wf(),
            final(self).spec_reading() == old(self).spec_reading(),
            old(self).spec_reading() ==> !r && *final(self) == *old(self),
            !old(self).spec_reading() && cache_get(
                old(self).entries_view(),
                question@,
                server,
            ) is Some ==> !r && *final(self) == *old(self),
            (!old(self).spec_reading() && cache_get(
                old(self).entries_view(),
                question@,
                server,
            ) is None && !can_insert(old(self).entries_view(), question@)) ==> !r && *final(self)
                == *old(self),
            (!old(self).spec_reading() && cache_get(
                old(self).entries_view(),
                question@,
                server,
            ) is None && can_insert(old(self).entries_view(), question@)) ==> r && cache_get(
                final(self).entries_view(),
                question@,
                server,
            ) == Some(response@) && forall|q2: QuestionV, s2: IpAddress|
                !(q2 == question@ && s2 == server) ==> #[trigger] cache_get(
                    final(self).entries_view(),
                    q2,
                    s2,
                ) == cache_get(old(self).entries_view(), q2, s2),
    {
        if self.reading {
            return false;
        }
        let ghost es = self.entries_view();
        let ghost q = question@;
        let ghost resp_v = response@;
        let ghost old_entries = self.entries@;
        match self.find_question(question) {
            Some(i) => {
                let has = match find_server(&self.entries[i].bucket, server) {
                    Some(_) => true,
                    None => false,
                };
                if has {
                    return false;
                }
                proof {
                    lemma_bucket_get_none(es[i as int].1, server);
                }
                if self.entries[i].bucket.len() >= 0xffff_ffffusize {
                    return false;
                }
                let ghost old_bucket = es[i as int].1;
                let qe = &mut self.entries[i];
                qe.bucket.push(SEntry { server, response });
                proof {
                    let new_qe = self.entries@[i as int];
                    assert(new_qe.bucket@.last().server == server);
                    assert(new_qe.bucket@.last().response@ == resp_v);
                    assert(new_qe.bucket@.drop_last() =~= old_entries[i as int].bucket@);
                    assert(new_qe.question@ == q);
                    assert(new_qe.bucket_view() =~= old_bucket.push((server, resp_v)));
                    let new_es = self.entries_view();
                    assert(new_es =~= es.update(i as int, (q, old_bucket.push((server, resp_v)))));
                    lemma_record_update(es, i as int, q, server, resp_v);
                    // well-formedness is preserved: only bucket i grew, by a
                    // record for a server it did not hold
                    assert forall|x: int, y: int|
                        0 <= x < y < new_es.len() implies (#[trigger] new_es[x]).0 != (
                    #[trigger] new_es[y]).0 by {
                        assert(new_es[x].0 == es[x].0);
                        assert(new_es[y].0 == es[y].0);
                    }
                    assert forall|k: int| 0 <= k < new_es.len() implies (#[trigger] new_es[k]).0.wf() by {
                        assert(new_es[k].0 == es[k].0);
                    }
                    assert(self.wf());
                }
                true
            },
            None => {
                proof {
                    lemma_entries_get_none(es, q);
                }
                if self.entries.len() >= 0xffff_ffffusize {
                    return false;
                }
                let mut bucket: Vec<SEntry> = Vec::new();
                bucket.push(SEntry { server, response });
                let question2 = question.clone();
                self.entries.push(QEntry { question: question2, bucket });
                proof {
                    let new_qe = self.entries@.last();
                    assert(new_qe.question@ == q);
                    assert(new_qe.bucket@.len() == 1);
                    assert(new_qe.bucket@[0].server == server);
                    assert(new_qe.bucket@[0].response@ == resp_v);
                    assert(new_qe.bucket_view() =~= seq![(server, resp_v)]);
                    assert(self.entries@.drop_last() =~= old_entries);
                    let new_es = self.entries_view();
                    assert(new_es =~= es.push((q, seq![(server, resp_v)])));
                    lemma_record_push(es, q, server, resp_v);
                    // well-formedness: the appended question is new and its
                    // one-record bucket is trivially well formed
                    assert forall|x: int, y: int|
                        0 <= x < y < new_es.len() implies (#[trigger] new_es[x]).0 != (
                    #[trigger] new_es[y]).0 by {
                        if y < es.len() {
                            assert(new_es[x].0 == es[x].0);
                            assert(new_es[y].0 == es[y].0);
                        } else {
                            assert(new_es[x].0 == es[x].0);
                            assert(new_es[y].0 == q);
                        }
                    }
                    assert forall|k: int| 0 <= k < new_es.len() implies (#[trigger] new_es[k]).0.wf() by {
                        if k < es.len() {
                            assert(new_es[k].0 == es[k].0);
                        }
                    }
                    assert(self.wf());
                }
                true
            },
        }
    }
}

impl Cache {
    /// Lists every `(question, server)` pair present in the store, grouped
    /// by question in insertion order.
    pub fn request_pairs(&self) -> (r: Vec<(Question, IpAddress)>)
        requires
            self.wf(),
        ensures
            pairs_match(r@, spec_pairs(self.entries_view())),
    {
        let ghost es = self.entries_view();
        let mut out: Vec<(Question, IpAddress)> = Vec::new();
        let mut i: usize = 0;
        while i < self.entries.len()
            invariant
                self.wf(),
                es == self.entries_view(),
                i <= es.len(),
                es.len() == self.entries@.len(),
                pairs_match(out@, spec_pairs_upto(es, i as int)),
            decreases es.len() - i,
        {
            let entry = &self.entries[i];
            let ghost e = es[i as int];
            proof {
                assert(e.1 == entry.bucket_view());
            }
            let ghost base = spec_pairs_upto(es, i as int);
            let mut j: usize = 0;
            while j < entry.bucket.len()
                invariant
                    e.1 == entry.bucket_view(),
                    e.0 == entry.question@,
                    j <= e.1.len(),
                    e.1.len() == entry.bucket@.len(),
                    out@.len() == base.len() + j,
                    pairs_match(out@.take(base.len() as int), base),
                    forall|k: int|
                        0 <= k < j ==> (#[trigger] out@[base.len() + k]).0@ == e.0 && out@[base.len()
                            + k].1 == e.1[k].0,
                decreases e.1.len() - j,
            {
                let q2 = entry.question.clone();
                let ghost pre = out@;
                out.push((q2, entry.bucket[j].server));
                proof {
                    assert(out@.take(base.len() as int) =~= pre.take(base.len() as int));
                    assert(out@[base.len() + j as int].0@ == e.0);
                    assert(out@[base.len() + j as int].1 == e.1[j as int].0);
                    assert(forall|k: int|
                        0 <= k < j ==> #[trigger] out@[base.len() + k] == pre[base.len() + k]);
                }
                j += 1;
            }
            proof {
                assert(spec_pairs_upto(es, i + 1) == base + entry_pairs(e));
                assert(pairs_match(out@, spec_pairs_upto(es, i + 1))) by {
                    assert(entry_pairs(e).len() == e.1.len());
                    assert forall|k: int| 0 <= k < out@.len() implies (#[trigger] out@[k]).0@
                        == spec_pairs_upto(es, i + 1)[k].0 && out@[k].1 == spec_pairs_upto(
                        es,
                        i + 1,
                    )[k].1 by {
                        if k < base.len() {
                            assert(out@.take(base.len() as int)[k] == out@[k]);
                            assert(spec_pairs_upto(es, i + 1)[k] == base[k]);
                        } else {
                            let k2 = k - base.len();
                            assert(out@[base.len() + k2].0@ == e.0);
                            assert(out@[base.len() + k2].1 == e.1[k2].0);
                            assert(spec_pairs_upto(es, i + 1)[k] == entry_pairs(e)[k2]);
                            assert(entry_pairs(e)[k2] == (e.0, e.1[k2].0));
                        }
                    }
                }
            }
            i += 1;
        }
        proof {
            assert(spec_pairs(es) == spec_pairs_upto(es, es.len() as int));
        }
        out
    }

    /// The recorded failures of the stored record for `(question, server)`,
    /// oldest first; empty when no record exists.
    pub fn retries(&self, question: &Question, server: IpAddress) -> (r: Vec<Failure>)
        requires
            self.wf(),
        ensures
            match cache_get(self.entries_view(), question@, server) {
                Some(resp) => r@ == resp.failures,
                None => r@ == Seq::<Failure>::empty(),
            },
    {
        let ghost es = self.entries_view();
        let ghost q = question@;
        match self.find_question(question) {
            Some(i) => {
                let entry = &self.entries[i];
                match find_server(&entry.bucket, server) {
                    Some(si) => {
                        proof {
                            assert(es[i as int].1 == entry.bucket_view());
                            assert(es[i as int].1[si as int] == (
                                entry.bucket@[si as int].server,
                                entry.bucket@[si as int].response@,
                            ));
                            assert(cache_get(es, q, server) == Some(
                                entry.bucket@[si as int].response@,
                            ));
                        }
                        let stored = entry.bucket[si].response.failures();
                        let mut out: Vec<Failure> = Vec::new();
                        let mut k: usize = 0;
                        while k < stored.len()
                            invariant
                                k <= stored@.len(),
                                out@ =~= stored@.take(k as int),
                            decreases stored@.len() - k,
                        {
                            out.push(stored[k]);
                            assert(out@ =~= stored@.take(k + 1));
                            k += 1;
                        }
                        assert(out@ =~= stored@);
                        out
                    },
                    None => {
                        proof {
                            assert(es[i as int].1 == entry.bucket_view());
                        }
                        let out: Vec<Failure> = Vec::new();
                        assert(out@ =~= Seq::<Failure>::empty());
                        out
                    },
                }
            },
            None => {
                let out: Vec<Failure> = Vec::new();
                assert(out@ =~= Seq::<Failure>::empty());
                out
            },
        }
    }

    /// Invokes the visitor exactly once per stored `(question, server)`
    /// pair — the visitor's observations grow by exactly the store's pairs,
    /// grouped by question in insertion order — handing the cache back for
    /// nested calls. The reading lock is raised at every visit, so nested
    /// lookups that would resolve over the network answer `Lock` and
    /// nothing can be recorded; the store is unchanged and the lock's
    /// previous state is restored on exit. Verified code has no unwinding
    /// exits; the restore is the last statement on the one path there is.
    pub fn for_each_request<V: RequestVisitor>(&mut self, visitor: &mut V)
        requires
            old(self).wf(),
        ensures
            final(self).wf(),
            final(self).entries_view() == old(self).entries_view(),
            final(self).spec_reading() == old(self).spec_reading(),
            final(visitor).observed() == old(visitor).observed() + spec_pairs(
                old(self).entries_view(),
            ),
    {
        let prev = self.reading;
        let ghost es = self.entries_view();
        let ghost obs0 = visitor.observed();
        let pairs = self.request_pairs();
        let mut i: usize = 0;
        while i < pairs.len()
            invariant
                self.wf(),
                self.entries_view() == es,
                pairs_match(pairs@, spec_pairs(es)),
                i <= pairs@.len(),
                visitor.observed() == obs0 + spec_pairs(es).take(i as int),
            decreases pairs@.len() - i,
        {
            self.reading = true;
            let server = pairs[i].1;
            visitor.visit(self, &pairs[i].0, server);
            proof {
                assert((pairs@[i as int].0@, pairs@[i as int].1) == spec_pairs(es)[i as int]);
                assert(spec_pairs(es).take(i + 1) =~= spec_pairs(es).take(i as int).push(
                    spec_pairs(es)[i as int],
                ));
                assert(obs0 + spec_pairs(es).take(i + 1) =~= (obs0 + spec_pairs(es).take(
                    i as int,
                )).push(spec_pairs(es)[i as int]));
            }
            i += 1;
        }
        self.reading = prev;
        proof {
            assert(spec_pairs(es).take(pairs@.len() as int) =~= spec_pairs(es));
        }
    }

    /// Invokes the visitor once per recorded failure of the stored record
    /// for `(question, server)`, oldest first — the visitor's observations
    /// grow by exactly that record's failure list — and not at all when no
    /// record exists. The reading lock is raised at every visit; the store
    /// is unchanged and the lock's previous state is restored on exit.
    pub fn for_each_retry<V: RetryVisitor>(
        &mut self,
        question: &Question,
        server: IpAddress,
        visitor: &mut V,
    )
        requires
            old(self).wf(),
        ensures
            final(self).wf(),
            final(self).entries_view() == old(self).entries_view(),
            final(self).spec_reading() == old(self).spec_reading(),
            final(visitor).observed() == old(visitor).observed() + match cache_get(
                old(self).entries_view(),
                question@,
                server,
            ) {
                Some(r) => r.failures,
                None => Seq::<Failure>::empty(),
            },
    {
        let prev = self.reading;
        let ghost es = self.entries_view();
        let ghost obs0 = visitor.observed();
        let failures = self.retries(question, server);
        let ghost shown = failures@;
        let mut i: usize = 0;
        while i < failures.len()
            invariant
                self.wf(),
                self.entries_view() == es,
                shown == failures@,
                i <= shown.len(),
                visitor.observed() == obs0 + shown.take(i as int),
            decreases shown.len() - i,
        {
            self.reading = true;
            let f = failures[i];
            visitor.visit(self, f.query_start, f.query_duration, f.kind);
            proof {
                assert(Failure {
                    query_start: shown[i as int].query_start,
                    query_duration: shown[i as int].query_duration,
                    kind: shown[i as int].kind,
                } == shown[i as int]);
                assert(shown.take(i + 1) =~= shown.take(i as int).push(shown[i as int]));
                assert(obs0 + shown.take(i + 1) =~= (obs0 + shown.take(i as int)).push(
                    shown[i as int],
                ));
            }
            i += 1;
        }
        self.reading = prev;
        proof {
            assert(shown.take(shown.len() as int) =~= shown);
        }
    }
}

impl Cache {
    /// Serializes the store into its self-describing binary form. The
    /// reading flag is not persisted.
    pub fn to_bytes(&self) -> (r: Vec<u8>)
        requires
            self.wf(),
        ensures
            r@ == enc_entries(self.entries_view()),
    {
        let ghost es = self.entries_view();
        let mut out: Vec<u8> = Vec::new();
        out.push(0xdf);
        write_be(&mut out, self.entries.len() as u64, 4);
        proof {
            assert(out@ =~= seq![0xdfu8] + be_bytes(es.len() as nat, 4) + enc_entry_items(
                es.take(0),
            ));
        }
        let mut i: usize = 0;
        while i < self.entries.len()
            invariant
                self.wf(),
                es == self.entries_view(),
                i <= es.len(),
                es.len() == self.entries@.len(),
                out@ == seq![0xdfu8] + be_bytes(es.len() as nat, 4) + enc_entry_items(
                    es.take(i as int),
                ),
            decreases es.len() - i,
        {
            let ghost prefix = es.take(i as int);
            proof {
                assert(es.take(i + 1).drop_last() =~= prefix);
                assert(es.take(i + 1).last() == es[i as int]);
            }
            let entry = &self.entries[i];
            proof {
                assert(es[i as int] == (entry.question@, entry.bucket_view()));
            }
            write_question(&mut out, &entry.question);
            let ghost bv = entry.bucket_view();
            out.push(0xdf);
            write_be(&mut out, entry.bucket.len() as u64, 4);
            let ghost base = out@;
            proof {
                assert(out@ =~= base + enc_bucket_items(bv.take(0)));
            }
            let blen = entry.bucket.len();
            let mut j: usize = 0;
            while j < blen
                invariant
                    self.wf(),
                    es == self.entries_view(),
                    es.len() == self.entries@.len(),
                    i < es.len(),
                    bv == es[i as int].1,
                    bv == self.entries@[i as int].bucket_view(),
                    j <= blen,
                    blen == bv.len(),
                    bv.len() == self.entries@[i as int].bucket@.len(),
                    out@ == base + enc_bucket_items(bv.take(j as int)),
                decreases blen - j,
            {
                proof {
                    assert(bv.take(j + 1).drop_last() =~= bv.take(j as int));
                    assert(bv.take(j + 1).last() == bv[j as int]);
                    assert(bv[j as int] == (
                        self.entries@[i as int].bucket@[j as int].server,
                        self.entries@[i as int].bucket@[j as int].response@,
                    ));
                    assert(out@ + Seq::<u8>::empty() =~= out@);
                }
                let se = &self.entries[i].bucket[j];
                write_ip(&mut out, se.server);
                write_response(&mut out, &se.response);
                proof {
                    assert(out@ =~= base + enc_bucket_items(bv.take(j + 1)));
                }
                j += 1;
            }
            proof {
                assert(bv.take(bv.len() as int) =~= bv);
                assert(out@ =~= seq![0xdfu8] + be_bytes(es.len() as nat, 4) + enc_entry_items(
                    es.take(i + 1),
                )) by {
                    assert(enc_bucket(bv) =~= seq![0xdfu8] + be_bytes(bv.len() as nat, 4)
                        + enc_bucket_items(bv));
                }
            }
            i += 1;
        }
        proof {
            assert(es.take(es.len() as int) =~= es);
            assert(out@ =~= enc_entries(es));
        }
        out
    }

    /// Loads a store from its binary form: exactly the byte strings the
    /// parsers accept load, and the loaded store is well formed and not
    /// being iterated. Envelopes are rebuilt by re-running the decode, so
    /// a packet that fails to decode still loads with its bytes intact.
    pub fn from_bytes(bytes: &Vec<u8>) -> (r: Result<Cache, DecodeError>)
        ensures
            match r {
                Ok(c) => c.wf() && !c.spec_reading() && sp_cache(bytes@) == Some(
                    c.entries_view(),
                ) && bytes@ == enc_entries(c.entries_view()),
                Err(_) => sp_cache(bytes@) is None,
            },
    {
        if !(bytes.len() >= 5 && bytes[0] == 0xdf) {
            proof {
                assert(sp_entries(bytes@, 0) is None);
                assert(sp_cache(bytes@) is None);
            }
            return Err(DecodeError);
        }
        let count64 = read_be(bytes, 1, 4);
        proof {
            lemma_be_val_bound(bytes@.subrange(1, 5));
            lemma_pow256_values();
        }
        let count = count64 as usize;
        let ghost total = count as nat;
        let mut entries: Vec<QEntry> = Vec::new();
        proof {
            assert(qentries_view(entries@) =~= Seq::<(QuestionV, BucketV)>::empty());
            match sp_entry_items(bytes@, 5, total) {
                Some((rest, k)) => {
                    assert(Seq::<(QuestionV, BucketV)>::empty() + rest =~= rest);
                },
                None => {},
            }
        }
        let mut pos: usize = 5;
        let mut done: usize = 0;
        while done < count
            invariant
                5 <= bytes.len(),
                bytes@[0] == 0xdfu8,
                total == be_val(bytes@.subrange(1, 5)),
                total <= u32::MAX,
                done <= count,
                pos <= bytes.len(),
                count as nat == total,
                entries@.len() == done,
                distinct_question_keys(qentries_view(entries@)),
                forall|k: int| 0 <= k < entries@.len() ==> (#[trigger] entries@[k]).question.wf(),
                forall|k: int|
                    0 <= k < entries@.len() ==> {
                        let bk = (#[trigger] entries@[k]).bucket;
                        &&& bk@.len() <= u32::MAX
                        &&& distinct_bucket_keys(sentries_view(bk@))
                        &&& forall|x: int|
                            0 <= x < bk@.len() ==> (#[trigger] bk@[x]).response.wf()
                    },
                sp_entry_items(bytes@, 5, total) == match sp_entry_items(
                    bytes@,
                    pos as int,
                    (count - done) as nat,
                ) {
                    Some((rest, k)) => Some((qentries_view(entries@) + rest, k)),
                    None => None::<(EntriesV, int)>,
                },
            decreases count - done,
        {
            let ghost rem = (count - done) as nat;
            let ghost ev_old = qentries_view(entries@);
            match parse_question(bytes, pos) {
                None => {
                    proof {
                        assert(sp_entry_items(bytes@, pos as int, rem) is None);
                        assert(sp_entry_items(bytes@, 5, total) is None);
                        assert(sp_entries(bytes@, 0) is None);
                        assert(sp_cache(bytes@) is None);
                    }
                    return Err(DecodeError);
                },
                Some((question, j)) => {
                    match parse_bucket_entries(bytes, j) {
                        None => {
                            proof {
                                assert(sp_entry_items(bytes@, pos as int, rem) is None);
                                assert(sp_entry_items(bytes@, 5, total) is None);
                                assert(sp_entries(bytes@, 0) is None);
                                assert(sp_cache(bytes@) is None);
                            }
                            return Err(DecodeError);
                        },
                        Some((bucket, j2)) => {
                            let ghost bkv = sentries_view(bucket@);
                            let found = find_question_in(&entries, &question);
                            if let Some(dup_at) = found {
                                // a repeated question: the store cannot be
                                // loaded, its keys must be distinct
                                proof {
                                    let x0 = dup_at as int;
                                    assert(ev_old[x0].0 == question@);
                                    match sp_entry_items(bytes@, j2 as int, (rem - 1) as nat) {
                                        None => {
                                            assert(sp_entry_items(bytes@, 5, total) is None);
                                        },
                                        Some((rest2, k2)) => {
                                            let full = ev_old + (seq![(question@, bkv)] + rest2);
                                            assert(sp_entry_items(bytes@, pos as int, rem)
                                                == Some((seq![(question@, bkv)] + rest2, k2)));
                                            assert(sp_entry_items(bytes@, 5, total) == Some(
                                                (full, k2),
                                            ));
                                            let y0 = ev_old.len() as int;
                                            assert(full[x0] == ev_old[x0]);
                                            assert(full[y0] == (question@, bkv));
                                            assert(!distinct_question_keys(full));
                                        },
                                    }
                                    assert(sp_entries(bytes@, 0) is None);
                                    assert(sp_cache(bytes@) is None);
                                }
                                return Err(DecodeError);
                            }
                            proof {
                                lemma_entries_get_none(ev_old, question@);
                            }
                            let ghost q_v = question@;
                            entries.push(QEntry { question, bucket });
                            proof {
                                let qe_new = entries@.last();
                                assert(qe_new.question@ == q_v);
                                assert(qe_new.bucket_view() == bkv);
                                assert(qentries_view(entries@) =~= ev_old.push((q_v, bkv)));
                                assert(distinct_question_keys(qentries_view(entries@))) by {
                                    let ev_new = qentries_view(entries@);
                                    assert forall|x: int, y: int|
                                        0 <= x < y < ev_new.len() implies (#[trigger] ev_new[x]).0
                                        != (#[trigger] ev_new[y]).0 by {
                                        if y < ev_new.len() - 1 {
                                            assert(ev_new[x] == ev_old[x]);
                                            assert(ev_new[y] == ev_old[y]);
                                        } else {
                                            assert(ev_new[x] == ev_old[x]);
                                            assert(ev_new[y] == (q_v, bkv));
                                        }
                                    }
                                }
                                match sp_entry_items(bytes@, j2 as int, (rem - 1) as nat) {
                                    None => {},
                                    Some((rest2, k2)) => {
                                        assert(ev_old + (seq![(q_v, bkv)] + rest2)
                                            =~= qentries_view(entries@) + rest2);
                                    },
                                }
                            }
                            pos = j2;
                            done += 1;
                        },
                    }
                },
            }
        }
        proof {
            assert(sp_entry_items(bytes@, pos as int, 0) == Some(
                (Seq::<(QuestionV, BucketV)>::empty(), pos as int),
            ));
            assert(qentries_view(entries@) + Seq::<(QuestionV, BucketV)>::empty()
                =~= qentries_view(entries@));
            assert(sp_entry_items(bytes@, 5, total) == Some(
                (qentries_view(entries@), pos as int),
            ));
        }
        if pos != bytes.len() {
            // trailing bytes: not a whole-store encoding
            proof {
                assert(sp_entries(bytes@, 0) == Some((qentries_view(entries@), pos as int)));
                assert(sp_cache(bytes@) is None);
            }
            return Err(DecodeError);
        }
        let cache = Cache { entries, reading: false };
        proof {
            let ev = cache.entries_view();
            assert(entries_wf(ev)) by {
                assert forall|k: int| 0 <= k < ev.len() implies (#[trigger] ev[k]).0.wf() by {
                    assert(ev[k] == (
                        cache.entries@[k].question@,
                        cache.entries@[k].bucket_view(),
                    ));
                }
                assert forall|k: int|
                    0 <= k < ev.len() implies {
                    let b = (#[trigger] ev[k]).1;
                    &&& b.len() <= u32::MAX
                    &&& crate::codec::bucket_items_wf(b)
                    &&& distinct_bucket_keys(b)
                } by {
                    assert(ev[k] == (
                        cache.entries@[k].question@,
                        cache.entries@[k].bucket_view(),
                    ));
                    let bk = cache.entries@[k].bucket;
                    assert forall|x: int| 0 <= x < ev[k].1.len() implies (#[trigger] ev[k].1[
                    x]).1.wf() by {
                        assert(ev[k].1[x] == (bk@[x].server, bk@[x].response@));
                        assert(bk@[x].response.wf());
                    }
                }
            }
            assert(cache.wf());
            assert(sp_cache(bytes@) == Some(cache.entries_view()));
            crate::codec::lemma_parse_sound(bytes@, cache.entries_view());
        }
        Ok(cache)
    }
}

/// The index of the bucket for `question` in an entry list, if one exists.
fn find_question_in(entries: &Vec<QEntry>, question: &Question) -> (r: Option<usize>)
    ensures
        match r {
            Some(i) => i < qentries_view(entries@).len() && qentries_view(entries@)[i as int].0
                == question@,
            None => entries_get(qentries_view(entries@), question@) is None,
        },
{
    let ghost es = qentries_view(entries@);
    let ghost q = question@;
    proof {
        assert(es.skip(0) =~= es);
    }
    let mut i: usize = 0;
    while i < entries.len()
        invariant
            es == qentries_view(entries@),
            q == question@,
            i <= es.len(),
            es.len() == entries@.len(),
            entries_get(es, q) == entries_get(es.skip(i as int), q),
        decreases es.len() - i,
    {
        proof {
            assert(es.skip(i as int)[0] == es[i as int]);
        }
        if entries[i].question.same_as(question) {
            return Some(i);
        }
        proof {
            assert(es.skip(i as int).drop_first() =~= es.skip(i + 1));
        }
        i += 1;
    }
    proof {
        assert(es.skip(es.len() as int) =~= Seq::<(QuestionV, BucketV)>::empty());
    }
    None
}

/// Parses one bucket into its entry list, refusing repeated servers.
fn parse_bucket_entries(b: &Vec<u8>, i: usize) -> (r: Option<(Vec<SEntry>, usize)>)
    requires
        i <= b@.len(),
    ensures
        match r {
            Some((bk, j)) => ({
                &&& sp_bucket(b@, i as int) == Some((sentries_view(bk@), j as int))
                &&& j <= b@.len()
                &&& bk@.len() <= u32::MAX
                &&& distinct_bucket_keys(sentries_view(bk@))
                &&& forall|k: int| 0 <= k < bk@.len() ==> (#[trigger] bk@[k]).response.wf()
            }),
            None => sp_bucket(b@, i as int) is None,
        },
{
    if !(b.len() - i >= 5 && b[i] == 0xdf) {
        return None;
    }
    let count64 = read_be(b, i + 1, 4);
    proof {
        lemma_be_val_bound(b@.subrange(i + 1, i + 5));
        lemma_pow256_values();
    }
    let count = count64 as usize;
    let ghost total = count as nat;
    let mut out: Vec<SEntry> = Vec::new();
    proof {
        assert(sentries_view(out@) =~= Seq::<(IpAddress, ResponseV)>::empty());
        match sp_bucket_items(b@, i + 5, total) {
            Some((rest, k)) => {
                assert(Seq::<(IpAddress, ResponseV)>::empty() + rest =~= rest);
            },
            None => {},
        }
    }
    let mut pos: usize = i + 5;
    let mut done: usize = 0;
    while done < count
        invariant
            i + 5 <= b.len(),
            b@[i as int] == 0xdfu8,
            total == be_val(b@.subrange(i + 1, i + 5)),
            total <= u32::MAX,
            done <= count,
            pos <= b.len(),
            count as nat == total,
            out@.len() == done,
            distinct_bucket_keys(sentries_view(out@)),
            forall|k: int| 0 <= k < out@.len() ==> (#[trigger] out@[k]).response.wf(),
            sp_bucket_items(b@, i + 5, total) == match sp_bucket_items(
                b@,
                pos as int,
                (count - done) as nat,
            ) {
                Some((rest, k)) => Some((sentries_view(out@) + rest, k)),
                None => None::<(BucketV, int)>,
            },
        decreases count - done,
    {
        let ghost rem = (count - done) as nat;
        let ghost bv_old = sentries_view(out@);
        match parse_ip(b, pos) {
            None => {
                proof {
                    assert(sp_bucket_items(b@, pos as int, rem) is None);
                    assert(sp_bucket_items(b@, i + 5, total) is None);
                }
                return None;
            },
            Some((server, j)) => {
                match parse_response(b, j) {
                    None => {
                        proof {
                            assert(sp_bucket_items(b@, pos as int, rem) is None);
                            assert(sp_bucket_items(b@, i + 5, total) is None);
                        }
                        return None;
                    },
                    Some((response, j2)) => {
                        let ghost resp_v = response@;
                        let found = find_server(&out, server);
                        if let Some(dup_at) = found {
                            // a repeated server: the bucket cannot be
                            // loaded, its keys must be distinct
                            proof {
                                let x0 = dup_at as int;
                                assert(bv_old[x0] == (
                                    out@[x0].server,
                                    out@[x0].response@,
                                ));
                                assert(bv_old[x0].0 == server);
                                match sp_bucket_items(b@, j2 as int, (rem - 1) as nat) {
                                    None => {
                                        assert(sp_bucket_items(b@, i + 5, total) is None);
                                    },
                                    Some((rest2, k2)) => {
                                        let full = bv_old + (seq![(server, resp_v)] + rest2);
                                        assert(sp_bucket_items(b@, pos as int, rem) == Some(
                                            (seq![(server, resp_v)] + rest2, k2),
                                        ));
                                        assert(sp_bucket_items(b@, i + 5, total) == Some(
                                            (full, k2),
                                        ));
                                        let y0 = bv_old.len() as int;
                                        assert(full[x0] == bv_old[x0]);
                                        assert(full[y0] == (server, resp_v));
                                        assert(!distinct_bucket_keys(full));
                                    },
                                }
                                assert(sp_bucket(b@, i as int) is None);
                            }
                            return None;
                        }
                        proof {
                            lemma_bucket_get_none(bv_old, server);
                        }
                        out.push(SEntry { server, response });
                        proof {
                            let se_new = out@.last();
                            assert(se_new.server == server);
                            assert(se_new.response@ == resp_v);
                            assert(out@.drop_last() =~= out@.drop_last());
                            assert(sentries_view(out@) =~= bv_old.push((server, resp_v)));
                            assert(distinct_bucket_keys(sentries_view(out@))) by {
                                let bv_new = sentries_view(out@);
                                assert forall|x: int, y: int|
                                    0 <= x < y < bv_new.len() implies (#[trigger] bv_new[x]).0 != (
                                #[trigger] bv_new[y]).0 by {
                                    if y < bv_new.len() - 1 {
                                        assert(bv_new[x] == bv_old[x]);
                                        assert(bv_new[y] == bv_old[y]);
                                    } else {
                                        assert(bv_new[x] == bv_old[x]);
                                        assert(bv_new[y] == (server, resp_v));
                                    }
                                }
                            }
                            match sp_bucket_items(b@, j2 as int, (rem - 1) as nat) {
                                None => {},
                                Some((rest2, k2)) => {
                                    assert(bv_old + (seq![(server, resp_v)] + rest2)
                                        =~= sentries_view(out@) + rest2);
                                },
                            }
                        }
                        pos = j2;
                        done += 1;
                    },
                }
            },
        }
    }
    proof {
        assert(sp_bucket_items(b@, pos as int, 0) == Some(
            (Seq::<(IpAddress, ResponseV)>::empty(), pos as int),
        ));
        assert(sentries_view(out@) + Seq::<(IpAddress, ResponseV)>::empty() =~= sentries_view(
            out@,
        ));
        assert(sp_bucket_items(b@, i + 5, total) == Some((sentries_view(out@), pos as int)));
        assert(sp_bucket(b@, i as int) == Some((sentries_view(out@), pos as int)));
    }
    Some((out, pos))
}

/// A visitor that collects every pair it is shown, in order; a verified
/// witness that the visitor discipline can be met.
pub struct PairCollector {
    pairs: Vec<(Question, IpAddress)>,
}

impl PairCollector {
    /// An empty collector.
    pub fn new() -> (r: PairCollector)
        ensures
            r.observed() == Seq::<(QuestionV, IpAddress)>::empty(),
    {
        let r = PairCollector { pairs: Vec::new() };
        assert(r.observed() =~= Seq::<(QuestionV, IpAddress)>::empty());
        r
    }

    /// The collected pairs, in visit order.
    pub fn pairs(&self) -> (r: &Vec<(Question, IpAddress)>)
        ensures
            pairs_match(r@, self.observed()),
    {
        assert(pairs_match(self.pairs@, self.observed()));
        &self.pairs
    }
}

impl RequestVisitor for PairCollector {
    closed spec fn observed(&self) -> Seq<(QuestionV, IpAddress)> {
        self.pairs@.map_values(|p: (Question, IpAddress)| (p.0@, p.1))
    }

    fn visit(&mut self, cache: &mut Cache, question: &Question, server: IpAddress) {
        let q = question.clone();
        self.pairs.push((q, server));
        proof {
            assert(self.observed() =~= old(self).observed().push((question@, server)));
        }
    }
}

/// A visitor that collects every failure it is shown, in order; a verified
/// witness that the visitor discipline can be met.
pub struct FailureCollector {
    failures: Vec<Failure>,
}

impl FailureCollector {
    /// An empty collector.
    pub fn new() -> (r: FailureCollector)
        ensures
            r.observed() == Seq::<Failure>::empty(),
    {
        FailureCollector { failures: Vec::new() }
    }

    /// The collected failures, in visit order.
    pub fn failures(&self) -> (r: &Vec<Failure>)
        ensures
            r@ == self.observed(),
    {
        &self.failures
    }
}

impl RetryVisitor for FailureCollector {
    closed spec fn observed(&self) -> Seq<Failure> {
        self.failures@
    }

    fn visit(&mut self, _cache: &mut Cache, query_start: u64, query_duration: u32, kind: ErrorKind) {
        self.failures.push(Failure { query_start, query_duration, kind });
    }
}

/// Memoization: once `(q, s)` holds a record `resp`, a pure lookup for `q`
/// and `s` alone serves exactly that record's projection, without touching
/// the network.
pub proof fn lemma_memoization(es: EntriesV, q: QuestionV, s: IpAddress, resp: ResponseV)
    requires
        cache_get(es, q, s) == Some(resp),
    ensures
        spec_lookup(es, q, seq![s]) == seq![(s, project(resp))],
{
    let servers = seq![s];
    assert(servers.drop_last() =~= Seq::<IpAddress>::empty());
    assert(servers.last() == s);
    assert(spec_lookup(es, q, servers.drop_last()) == Seq::<(IpAddress, SRespV)>::empty());
    assert(spec_lookup(es, q, servers) =~= seq![(s, project(resp))]);
}

/// Batch coverage: a lookup plan accounts for every requested server
/// exactly once — each is either served from the store or left pending,
/// so a driver that answers the served ones and queries the pending ones
/// produces exactly one outcome per requested server.
pub proof fn lemma_batch_coverage(es: EntriesV, q: QuestionV, servers: Seq<IpAddress>)
    ensures
        spec_lookup(es, q, servers).len() + spec_pending(es, q, servers).len() == servers.len(),
    decreases servers.len(),
{
    if servers.len() > 0 {
        lemma_batch_coverage(es, q, servers.drop_last());
    }
}

/// A missed bucket lookup means no record carries the server.
proof fn lemma_bucket_get_none(b: BucketV, s: IpAddress)
    requires
        bucket_get(b, s) is None,
    ensures
        forall|k: int| 0 <= k < b.len() ==> (#[trigger] b[k]).0 != s,
    decreases b.len(),
{
    if b.len() > 0 {
        lemma_bucket_get_none(b.drop_first(), s);
        assert forall|k: int| 0 <= k < b.len() implies (#[trigger] b[k]).0 != s by {
            if k > 0 {
                assert(b[k] == b.drop_first()[k - 1]);
            }
        }
    }
}

/// A missed store lookup means no entry carries the question.
proof fn lemma_entries_get_none(es: EntriesV, q: QuestionV)
    requires
        entries_get(es, q) is None,
    ensures
        forall|k: int| 0 <= k < es.len() ==> (#[trigger] es[k]).0 != q,
    decreases es.len(),
{
    if es.len() > 0 {
        lemma_entries_get_none(es.drop_first(), q);
        assert forall|k: int| 0 <= k < es.len() implies (#[trigger] es[k]).0 != q by {
            if k > 0 {
                assert(es[k] == es.drop_first()[k - 1]);
            }
        }
    }
}

/// Looking up in a store extended with a fresh question: existing buckets
/// are found as before; the new question finds the new bucket.
proof fn lemma_entries_get_push(es: EntriesV, e: (QuestionV, BucketV), q: QuestionV)
    ensures
        entries_get(es.push(e), q) == match entries_get(es, q) {
            Some(b) => Some(b),
            None => if e.0 == q {
                Some(e.1)
            } else {
                None
            },
        },
    decreases es.len(),
{
    let p = es.push(e);
    if es.len() == 0 {
        assert(p[0] == e);
        assert(p.drop_first() =~= Seq::<(QuestionV, BucketV)>::empty());
        assert(entries_get(p.drop_first(), q) is None);
        if e.0 == q {
            assert(entries_get(p, q) == Some(e.1));
        } else {
            assert(entries_get(p, q) is None);
        }
        assert(entries_get(es, q) is None);
    } else {
        assert(p[0] == es[0]);
        assert(p.drop_first() =~= es.drop_first().push(e));
        lemma_entries_get_push(es.drop_first(), e, q);
        if es[0].0 == q {
            assert(entries_get(p, q) == Some(es[0].1));
            assert(entries_get(es, q) == Some(es[0].1));
        } else {
            assert(entries_get(p, q) == entries_get(p.drop_first(), q));
            assert(entries_get(es, q) == entries_get(es.drop_first(), q));
        }
    }
}

/// Looking up in a store whose entry `i` was replaced, when no other entry
/// carries the replaced key.
proof fn lemma_entries_get_update(es: EntriesV, i: int, e: (QuestionV, BucketV), q: QuestionV)
    requires
        0 <= i < es.len(),
        es[i].0 == e.0,
        forall|k: int| 0 <= k < es.len() && k != i ==> (#[trigger] es[k]).0 != e.0,
    ensures
        entries_get(es.update(i, e), q) == if q == e.0 {
            Some(e.1)
        } else {
            entries_get(es, q)
        },
    decreases es.len(),
{
    let u = es.update(i, e);
    if i == 0 {
        assert(u[0] == e);
        assert(u.drop_first() =~= es.drop_first());
        if q == e.0 {
        } else {
            assert(es[0].0 == e.0);
        }
    } else {
        assert(u[0] == es[0]);
        assert(es[0].0 != e.0);
        assert(u.drop_first() =~= es.drop_first().update(i - 1, e));
        assert forall|k: int|
            0 <= k < es.drop_first().len() && k != i - 1 implies (#[trigger] es.drop_first()[k]).0
            != e.0 by {
            assert(es.drop_first()[k] == es[k + 1]);
        }
        assert(es.drop_first()[i - 1] == es[i]);
        lemma_entries_get_update(es.drop_first(), i - 1, e, q);
    }
}

/// Looking up in a bucket extended with a fresh server: existing records
/// are found as before; the new server finds the new record.
proof fn lemma_bucket_get_push(b: BucketV, e: (IpAddress, ResponseV), s: IpAddress)
    ensures
        bucket_get(b.push(e), s) == match bucket_get(b, s) {
            Some(r0) => Some(r0),
            None => if e.0 == s {
                Some(e.1)
            } else {
                None
            },
        },
    decreases b.len(),
{
    let p = b.push(e);
    if b.len() == 0 {
        assert(p[0] == e);
        assert(p.drop_first() =~= Seq::<(IpAddress, ResponseV)>::empty());
        assert(bucket_get(p.drop_first(), s) is None);
        if e.0 == s {
            assert(bucket_get(p, s) == Some(e.1));
        } else {
            assert(bucket_get(p, s) is None);
        }
        assert(bucket_get(b, s) is None);
    } else {
        assert(p[0] == b[0]);
        assert(p.drop_first() =~= b.drop_first().push(e));
        lemma_bucket_get_push(b.drop_first(), e, s);
        if b[0].0 == s {
            assert(bucket_get(p, s) == Some(b[0].1));
            assert(bucket_get(b, s) == Some(b[0].1));
        } else {
            assert(bucket_get(p, s) == bucket_get(p.drop_first(), s));
            assert(bucket_get(b, s) == bucket_get(b.drop_first(), s));
        }
    }
}

/// After pushing a record into an existing bucket, the new pair is found
/// and every other pair is served as before.
proof fn lemma_record_update(es: EntriesV, i: int, q: QuestionV, s: IpAddress, r: ResponseV)
    requires
        0 <= i < es.len(),
        es[i].0 == q,
        forall|x: int, y: int| 0 <= x < y < es.len() ==> (#[trigger] es[x]).0 != (#[trigger] es[y]).0,
        entries_get(es, q) == Some(es[i].1),
    ensures
        cache_get(es.update(i, (q, es[i].1.push((s, r)))), q, s) == Some(r) || bucket_get(
            es[i].1,
            s,
        ) is Some,
        forall|q2: QuestionV, s2: IpAddress|
            !(q2 == q && s2 == s) ==> #[trigger] cache_get(
                es.update(i, (q, es[i].1.push((s, r)))),
                q2,
                s2,
            ) == cache_get(es, q2, s2),
        bucket_get(es[i].1, s) is None ==> cache_get(
            es.update(i, (q, es[i].1.push((s, r)))),
            q,
            s,
        ) == Some(r),
{
    let e = (q, es[i].1.push((s, r)));
    assert forall|k: int| 0 <= k < es.len() && k != i implies (#[trigger] es[k]).0 != q by {
        if k < i {
            assert(es[k].0 != es[i].0);
        } else {
            assert(es[i].0 != es[k].0);
        }
    }
    lemma_entries_get_update(es, i, e, q);
    lemma_bucket_get_push(es[i].1, (s, r), s);
    assert forall|q2: QuestionV, s2: IpAddress|
        !(q2 == q && s2 == s) implies #[trigger] cache_get(es.update(i, e), q2, s2) == cache_get(
        es,
        q2,
        s2,
    ) by {
        lemma_entries_get_update(es, i, e, q2);
        if q2 == q {
            lemma_bucket_get_push(es[i].1, (s, r), s2);
        }
    }
}

/// After storing the first record of a fresh question, the new pair is
/// found and every other pair is served as before.
proof fn lemma_record_push(es: EntriesV, q: QuestionV, s: IpAddress, r: ResponseV)
    requires
        entries_get(es, q) is None,
    ensures
        cache_get(es.push((q, seq![(s, r)])), q, s) == Some(r),
        forall|q2: QuestionV, s2: IpAddress|
            !(q2 == q && s2 == s) ==> #[trigger] cache_get(es.push((q, seq![(s, r)])), q2, s2)
                == cache_get(es, q2, s2),
{
    let e = (q, seq![(s, r)]);
    lemma_entries_get_push(es, e, q);
    assert(bucket_get(e.1, s) == Some(r)) by {
        assert(e.1[0] == (s, r));
    }
    assert forall|q2: QuestionV, s2: IpAddress|
        !(q2 == q && s2 == s) implies #[trigger] cache_get(es.push(e), q2, s2) == cache_get(
        es,
        q2,
        s2,
    ) by {
        lemma_entries_get_push(es, e, q2);
        if q2 == q {
            assert(e.1[0] == (s, r));
            assert(e.1.drop_first() =~= Seq::<(IpAddress, ResponseV)>::empty());
            assert(s2 != s);
            assert(bucket_get(e.1.drop_first(), s2) is None);
            assert(bucket_get(e.1, s2) is None);
            assert(entries_get(es.push(e), q2) == Some(e.1));
            assert(cache_get(es.push(e), q2, s2) is None);
            assert(cache_get(es, q2, s2) is None);
        } else {
            assert(entries_get(es.push(e), q2) == entries_get(es, q2));
        }
    }
}

/// The index of the record for `s` in a bucket, if one exists.
fn find_server(bucket: &Vec<SEntry>, s: IpAddress) -> (r: Option<usize>)
    ensures
        match r {
            Some(i) => i < bucket@.len() && bucket@[i as int].server == s && bucket_get(
                bucket@.map_values(|se: SEntry| (se.server, se.response@)),
                s,
            ) == Some(bucket@[i as int].response@),
            None => bucket_get(bucket@.map_values(|se: SEntry| (se.server, se.response@)), s)
                is None,
        },
{
    let ghost b = bucket@.map_values(|se: SEntry| (se.server, se.response@));
    proof {
        assert(b.skip(0) =~= b);
    }
    let mut i: usize = 0;
    while i < bucket.len()
        invariant
            b == bucket@.map_values(|se: SEntry| (se.server, se.response@)),
            i <= b.len(),
            b.len() == bucket@.len(),
            bucket_get(b, s) == bucket_get(b.skip(i as int), s),
        decreases b.len() - i,
    {
        proof {
            assert(b.skip(i as int)[0] == b[i as int]);
        }
        if bucket[i].server == s {
            return Some(i);
        }
        proof {
            assert(b.skip(i as int).drop_first() =~= b.skip(i + 1));
        }
        i += 1;
    }
    proof {
        assert(b.skip(b.len() as int) =~= Seq::<(IpAddress, ResponseV)>::empty());
    }
    None
}

/// Projects one stored record into the caller-facing shape. When the
/// envelope decodes, the shared decoded message is handed out together with
/// the packet size; a retained packet that does not decode is reported as a
/// protocol error.
pub fn single_response_of(resp: &RetriedResponse) -> (r: SingleResponse)
    requires
        resp.wf(),
    ensures
        r@ == project(resp@),
        match resp.spec_envelope() {
            Ok(env) => match env.spec_decoded() {
                Some(m) => r.outcome matches Ok(p) && p.0 == m,
                None => true,
            },
            Err(_) => true,
        },
{
    let started = resp.started();
    let duration = resp.duration();
    match resp.outcome() {
        Ok(env) => {
            assert(env.wf());
            assert(resp@.outcome matches Ok(b) && b == env@);
            match env.decoded() {
                Some(m) => {
                    assert(decode_ok(env@));
                    let size: u16 = (env.encoded_len() % 0x10000) as u16;
                    assert(size == (env@.len() % 0x10000) as u16);
                    let r = SingleResponse { started, duration, outcome: Ok((m, size)) };
                    assert(r@ == project(resp@));
                    r
                },
                None => {
                    assert(!decode_ok(env@));
                    let r = SingleResponse {
                        started,
                        duration,
                        outcome: Err(ErrorKind::Protocol),
                    };
                    assert(r@ == project(resp@));
                    r
                },
            }
        },
        Err(k) => {
            let r = SingleResponse { started, duration, outcome: Err(k) };
            assert(r@ == project(resp@));
            r
        },
    }
}

} // verus!
