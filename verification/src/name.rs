//! DNS names, modelled as their label byte strings.
//!
//! A name is a sequence of labels plus a flag saying whether the name is
//! fully qualified (written with a trailing dot). Keeping the raw label
//! bytes preserves case and escape fidelity, and keeps the absolute /
//! relative distinction that the on-disk encoding relies on.

use vstd::prelude::*;

verus! {

/// The mathematical model of a [`DnsName`]: the label byte strings and the
/// fully-qualified flag.
#[verifier::ext_equal]
pub struct NameV {
    pub labels: Seq<Seq<u8>>,
    pub fqdn: bool,
}

impl NameV {
    /// Bytes the name occupies in DNS wire encoding: one length byte per
    /// label plus the label bytes, and one final zero byte.
    pub open spec fn wire_len(self) -> int {
        wire_len_of(self.labels)
    }

    /// Every label is 1 to 63 bytes and the whole name fits in the 255-byte
    /// wire limit.
    pub open spec fn wf(self) -> bool {
        &&& forall|i: int|
            0 <= i < self.labels.len() ==> 1 <= (#[trigger] self.labels[i]).len() <= 63
        &&& self.wire_len() <= 255
    }

    /// The display form: labels joined with dots, plus a trailing dot when
    /// the name is fully qualified.
    pub open spec fn display(self) -> Seq<u8> {
        join_labels(self.labels) + if self.fqdn {
            seq![46u8]
        } else {
            Seq::<u8>::empty()
        }
    }
}

/// Sum of label lengths plus one length byte each, plus the final zero byte.
pub open spec fn wire_len_of(labels: Seq<Seq<u8>>) -> int
    decreases labels.len(),
{
    if labels.len() == 0 {
        1
    } else {
        labels[0].len() + 1 + wire_len_of(labels.drop_first())
    }
}

/// Labels joined with single dots, no trailing dot.
pub open spec fn join_labels(labels: Seq<Seq<u8>>) -> Seq<u8>
    decreases labels.len(),
{
    if labels.len() == 0 {
        Seq::empty()
    } else if labels.len() == 1 {
        labels[0]
    } else {
        labels[0] + seq![46u8] + join_labels(labels.drop_first())
    }
}

/// The bytes accepted in a textual name: ASCII letters, digits, `-`, `_`
/// and the dot separator, as the DNS codec's label rules have it.
pub open spec fn name_byte_ok(b: u8) -> bool {
    ||| 65 <= b <= 90  // A-Z
    ||| 97 <= b <= 122  // a-z
    ||| 48 <= b <= 57  // 0-9
    ||| b == 45  // -
    ||| b == 95  // _
    ||| b == 46
}

/// Index of the first dot in `s`, if any.
pub open spec fn first_dot(s: Seq<u8>) -> Option<int>
    decreases s.len(),
{
    if s.len() == 0 {
        None
    } else if s[0] == 46u8 {
        Some(0)
    } else {
        match first_dot(s.drop_first()) {
            Some(i) => Some(i + 1),
            None => None,
        }
    }
}

/// Splits `s` into dot-separated labels. Returns the labels and whether a
/// trailing dot was seen; rejects empty labels, labels over 63 bytes, and
/// labels that begin with a dash, as the DNS codec's label rules have it.
pub open spec fn parse_labels(s: Seq<u8>) -> Option<(Seq<Seq<u8>>, bool)>
    decreases s.len(),
{
    if s.len() == 0 {
        Some((Seq::empty(), false))
    } else if s[0] == 45u8 {
        None
    } else {
        match first_dot(s) {
            None => if s.len() <= 63 {
                Some((seq![s], false))
            } else {
                None
            },
            Some(i) => if i <= 0 {
                None
            } else if i > 63 {
                None
            } else if i + 1 >= s.len() {
                Some((seq![s.subrange(0, i)], true))
            } else {
                match parse_labels(s.subrange(i + 1, s.len() as int)) {
                    Some((rest, fqdn)) => Some((seq![s.subrange(0, i)].add(rest), fqdn)),
                    None => None,
                }
            },
        }
    }
}

/// The textual names this library accepts: every byte from the allowed set,
/// dot-separated labels of 1 to 63 bytes, an optional trailing dot, and the
/// whole name within the wire limit. The sole dot denotes the root name.
pub open spec fn spec_from_ascii(s: Seq<u8>) -> Option<NameV> {
    if !(forall|i: int| 0 <= i < s.len() ==> name_byte_ok(#[trigger] s[i])) {
        None
    } else if s =~= seq![46u8] {
        Some(NameV { labels: Seq::empty(), fqdn: true })
    } else {
        match parse_labels(s) {
            None => None,
            Some((labels, fqdn)) => if wire_len_of(labels) <= 255 {
                Some(NameV { labels, fqdn })
            } else {
                None
            },
        }
    }
}

/// A DNS name: raw label byte strings plus the fully-qualified flag.
#[derive(Debug)]
pub struct DnsName {
    labels: Vec<Vec<u8>>,
    fqdn: bool,
}

impl View for DnsName {
    type V = NameV;

    closed spec fn view(&self) -> NameV {
        NameV { labels: self.labels.deep_view(), fqdn: self.fqdn }
    }
}

/// Copies a list of byte strings; the view is preserved.
pub fn clone_labels(src: &Vec<Vec<u8>>) -> (r: Vec<Vec<u8>>)
    ensures
        r.deep_view() == src.deep_view(),
{
    let mut labels: Vec<Vec<u8>> = Vec::new();
    let mut i: usize = 0;
    while i < src.len()
        invariant
            i <= src.len(),
            labels.len() == i,
            forall|j: int| 0 <= j < i ==> labels.deep_view()[j] == src.deep_view()[j],
        decreases src.len() - i,
    {
        let lab: Vec<u8> = src[i].clone();
        assert(lab@ == src[i as int]@);
        labels.push(lab);
        i += 1;
    }
    assert(labels.deep_view() =~= src.deep_view());
    labels
}

impl Clone for DnsName {
    fn clone(&self) -> (r: Self)
        ensures
            r@ == self@,
    {
        let r = DnsName { labels: clone_labels(&self.labels), fqdn: self.fqdn };
        assert(r@ =~= self@);
        r
    }
}

impl DnsName {
    /// Whether the name satisfies the label and wire-length limits.
    pub open spec fn wf(self) -> bool {
        self@.wf()
    }

    /// Builds a name directly from its labels.
    pub fn from_labels(labels: Vec<Vec<u8>>, fqdn: bool) -> (r: Option<DnsName>)
        ensures
            match r {
                Some(n) => n@ == (NameV { labels: labels.deep_view(), fqdn }) && n.wf(),
                None => !(NameV { labels: labels.deep_view(), fqdn }).wf(),
            },
    {
        let ghost model = NameV { labels: labels.deep_view(), fqdn };
        let mut wire: usize = 1;
        let mut i: usize = 0;
        while i < labels.len()
            invariant
                i <= labels.len(),
                labels.deep_view() == model.labels,
                wire == wire_len_of(model.labels.take(i as int)),
                wire <= 255,
                forall|j: int| 0 <= j < i ==> 1 <= (#[trigger] model.labels[j]).len() <= 63,
            decreases labels.len() - i,
        {
            let len = labels[i].len();
            assert(model.labels[i as int].len() == len);
            if len == 0 || len > 63 {
                assert(!model.wf());
                return None;
            }
            if wire > 255 - (len + 1) {
                proof {
                    lemma_wire_len_take_step(model.labels, i as int);
                    lemma_wire_len_take_le(model.labels, i + 1);
                }
                assert(!model.wf());
                return None;
            }
            wire = wire + len + 1;
            proof {
                lemma_wire_len_take_step(model.labels, i as int);
            }
            i += 1;
        }
        proof {
            assert(model.labels.take(labels.len() as int) =~= model.labels);
        }
        Some(DnsName { labels, fqdn })
    }

    /// The number of labels.
    pub fn label_count(&self) -> (r: usize)
        ensures
            r == self@.labels.len(),
    {
        self.labels.len()
    }

    /// The label at index `i`.
    pub fn label_at(&self, i: usize) -> (r: &Vec<u8>)
        requires
            i < self@.labels.len(),
        ensures
            r@ == self@.labels[i as int],
    {
        &self.labels[i]
    }

    /// Whether the name is fully qualified.
    pub fn is_fqdn(&self) -> (r: bool)
        ensures
            r == self@.fqdn,
    {
        self.fqdn
    }

    /// Parses the textual form accepted by the library, as
    /// [`spec_from_ascii`] describes it.
    pub fn from_ascii(s: &Vec<u8>) -> (r: Option<DnsName>)
        ensures
            match r {
                Some(n) => spec_from_ascii(s@) == Some(n@) && n.wf(),
                None => spec_from_ascii(s@) is None,
            },
    {
        let len = s.len();
        let mut i: usize = 0;
        while i < len
            invariant
                len == s@.len(),
                i <= len,
                forall|k: int| 0 <= k < i ==> name_byte_ok(#[trigger] s@[k]),
            decreases len - i,
        {
            let b = s[i];
            let ok = (65 <= b && b <= 90) || (97 <= b && b <= 122) || (48 <= b && b <= 57) || b
                == 45 || b == 95 || b == 46;
            if !ok {
                return None;
            }
            i += 1;
        }
        if len == 1 && s[0] == 46 {
            assert(s@ =~= seq![46u8]);
            return Some(DnsName { labels: Vec::new(), fqdn: true });
        }
        assert(!(s@ =~= seq![46u8]));
        let mut labels: Vec<Vec<u8>> = Vec::new();
        let mut fqdn: bool = false;
        let mut pos: usize = 0;
        proof {
            assert(s@.subrange(0, len as int) =~= s@);
            assert(labels.deep_view() =~= Seq::<Seq<u8>>::empty());
            match parse_labels(s@) {
                Some((rest, f)) => {
                    assert(Seq::<Seq<u8>>::empty() + rest =~= rest);
                },
                None => {},
            }
        }
        loop
            invariant_except_break
                parse_labels(s@) == match parse_labels(s@.subrange(pos as int, len as int)) {
                    Some((rest, f)) => Some((labels.deep_view() + rest, f)),
                    None => None::<(Seq<Seq<u8>>, bool)>,
                },
                !fqdn,
            invariant
                len == s@.len(),
                pos <= len,
                forall|j: int|
                    0 <= j < labels.len() ==> 1 <= (#[trigger] labels.deep_view()[j]).len() <= 63,
                forall|k: int| 0 <= k < s@.len() ==> name_byte_ok(#[trigger] s@[k]),
                !(s@ =~= seq![46u8]),
            ensures
                parse_labels(s@) == Some((labels.deep_view(), fqdn)),
                forall|j: int|
                    0 <= j < labels.len() ==> 1 <= (#[trigger] labels.deep_view()[j]).len() <= 63,
            decreases len - pos,
        {
            let ghost rem = s@.subrange(pos as int, len as int);
            if pos < len && s[pos] == 45 {
                // a label beginning with a dash
                proof {
                    assert(rem[0] == s@[pos as int]);
                    assert(parse_labels(rem) is None);
                    assert(parse_labels(s@) is None);
                    assert(spec_from_ascii(s@) is None);
                }
                return None;
            }
            proof {
                if pos < len {
                    assert(rem[0] == s@[pos as int]);
                    assert(rem[0] != 45u8);
                }
            }
            if pos >= len {
                proof {
                    assert(rem =~= Seq::<u8>::empty());
                    assert(labels.deep_view() + Seq::<Seq<u8>>::empty() =~= labels.deep_view());
                }
                break;
            }
            // scan for the next dot
            let mut j: usize = pos;
            while j < len
                invariant
                    len == s@.len(),
                    pos <= j <= len,
                    forall|k: int| pos <= k < j ==> s@[k] != 46u8,
                ensures
                    pos <= j <= len,
                    forall|k: int| pos <= k < j ==> s@[k] != 46u8,
                    j < len ==> s@[j as int] == 46u8,
                decreases len - j,
            {
                if s[j] == 46 {
                    break;
                }
                j += 1;
            }
            proof {
                lemma_first_dot_char(rem);
                if j < len {
                    assert(s@[j as int] == 46);
                    assert(rem[j - pos] == 46);
                    // first_dot(rem) is the minimal dot index
                    match first_dot(rem) {
                        Some(fd) => {
                            assert(rem[fd] == 46);
                            assert(forall|k: int| 0 <= k < fd ==> rem[k] != 46u8);
                            assert(forall|k: int|
                                pos <= k < j ==> #[trigger] rem[k - pos] != 46u8) by {
                                assert(forall|k: int|
                                    pos <= k < j ==> rem[k - pos] == #[trigger] s@[k]);
                            }
                            if fd < j - pos {
                                assert(rem[fd] != 46u8);
                            }
                            if fd > j - pos {
                                assert(rem[j - pos] != 46u8);
                            }
                            assert(fd == j - pos);
                        },
                        None => {
                            assert(rem[j - pos] != 46u8);
                        },
                    }
                } else {
                    assert(forall|k: int| 0 <= k < rem.len() ==> rem[k] != 46u8);
                    match first_dot(rem) {
                        Some(fd) => {
                            assert(rem[fd] != 46u8);
                        },
                        None => {},
                    }
                }
            }
            let label_len = j - pos;
            if label_len == 0 {
                // a dot with no label before it
                proof {
                    assert(rem.len() > 0);
                    assert(first_dot(rem) == Some(0int));
                    assert(parse_labels(rem) is None);
                    assert(parse_labels(s@) is None);
                    assert(forall|k: int| 0 <= k < s@.len() ==> name_byte_ok(#[trigger] s@[k]));
                    assert(!(s@ =~= seq![46u8]));
                    assert(spec_from_ascii(s@) is None);
                }
                return None;
            }
            if label_len > 63 {
                proof {
                    assert(rem.len() > 0);
                    if j < len {
                        assert(first_dot(rem) == Some(label_len as int));
                    } else {
                        assert(first_dot(rem) is None);
                        assert(rem.len() == label_len);
                    }
                    assert(parse_labels(rem) is None);
                    assert(parse_labels(s@) is None);
                    assert(spec_from_ascii(s@) is None);
                }
                return None;
            }
            let ghost lab_spec = rem.subrange(0, j - pos);
            let lab = copy_range(s, pos, j);
            proof {
                assert(lab@ =~= lab_spec);
            }
            let ghost dv_old = labels.deep_view();
            proof {
                assert(lab.deep_view() =~= lab_spec);
            }
            labels.push(lab);
            proof {
                assert(labels.deep_view() =~= dv_old.push(lab_spec));
            }
            if j == len {
                // last label, no trailing dot
                proof {
                    assert(rem.len() == label_len);
                    assert(rem =~= lab_spec);
                    assert(parse_labels(rem) == Some((seq![rem], false)));
                    assert(dv_old + seq![rem] =~= dv_old.push(lab_spec));
                }
                fqdn = false;
                break;
            } else if j + 1 == len {
                // trailing dot: fully qualified
                proof {
                    assert(parse_labels(rem) == Some((seq![lab_spec], true)));
                    assert(dv_old + seq![lab_spec] =~= dv_old.push(lab_spec));
                }
                fqdn = true;
                break;
            } else {
                proof {
                    let tail = rem.subrange(label_len + 1, rem.len() as int);
                    assert(tail =~= s@.subrange(j + 1, len as int));
                    match parse_labels(tail) {
                        Some((rest, f)) => {
                            assert(parse_labels(rem) == Some((seq![lab_spec].add(rest), f)));
                            assert(dv_old + (seq![lab_spec].add(rest)) =~= dv_old.push(lab_spec)
                                + rest);
                        },
                        None => {
                            assert(parse_labels(rem) is None);
                        },
                    }
                }
                pos = j + 1;
            }
        }
        DnsName::from_labels(labels, fqdn)
    }

    /// Renders the name: labels joined with dots, with a trailing dot when
    /// fully qualified.
    pub fn to_display_bytes(&self) -> (r: Vec<u8>)
        ensures
            r@ == self@.display(),
    {
        let mut out: Vec<u8> = Vec::new();
        let mut i: usize = 0;
        let ghost all = self.labels.deep_view();
        while i < self.labels.len()
            invariant
                i <= self.labels.len(),
                all == self.labels.deep_view(),
                out@ == join_labels(all.take(i as int)),
            decreases self.labels.len() - i,
        {
            if i > 0 {
                out.push(46);
            }
            push_bytes(&mut out, &self.labels[i]);
            proof {
                lemma_join_snoc(all.take(i as int), all[i as int]);
                assert(all.take(i + 1) =~= all.take(i as int).push(all[i as int]));
            }
            i += 1;
        }
        proof {
            assert(all.take(self.labels.len() as int) =~= all);
        }
        if self.fqdn {
            out.push(46);
        }
        out
    }
}

/// Copies `s[from..to]` into a fresh vector.
pub fn copy_range(s: &Vec<u8>, from: usize, to: usize) -> (r: Vec<u8>)
    requires
        from <= to <= s@.len(),
    ensures
        r@ == s@.subrange(from as int, to as int),
{
    let mut out: Vec<u8> = Vec::new();
    let mut k: usize = from;
    while k < to
        invariant
            from <= k <= to <= s@.len(),
            out@ =~= s@.subrange(from as int, k as int),
        decreases to - k,
    {
        out.push(s[k]);
        assert(out@ =~= s@.subrange(from as int, k + 1));
        k += 1;
    }
    out
}

/// Appends the bytes of `s` to `out`.
pub fn push_bytes(out: &mut Vec<u8>, s: &Vec<u8>)
    ensures
        final(out)@ == old(out)@ + s@,
{
    let mut k: usize = 0;
    while k < s.len()
        invariant
            k <= s@.len(),
            out@ =~= old(out)@ + s@.take(k as int),
        decreases s@.len() - k,
    {
        out.push(s[k]);
        assert(out@ =~= old(out)@ + s@.take(k + 1));
        k += 1;
    }
    assert(out@ =~= old(out)@ + s@);
}

/// Where the first dot sits: a dot at the returned index and none before it;
/// `None` means no dot at all.
pub proof fn lemma_first_dot_char(s: Seq<u8>)
    ensures
        match first_dot(s) {
            Some(i) => 0 <= i < s.len() && s[i] == 46u8 && forall|k: int|
                0 <= k < i ==> s[k] != 46u8,
            None => forall|k: int| 0 <= k < s.len() ==> s[k] != 46u8,
        },
    decreases s.len(),
{
    if s.len() > 0 && s[0] != 46u8 {
        let d = s.drop_first();
        lemma_first_dot_char(d);
        match first_dot(d) {
            Some(i) => {
                assert(s[i + 1] == d[i]);
                assert forall|k: int| 0 <= k < i + 1 implies s[k] != 46u8 by {
                    if k > 0 {
                        assert(s[k] == d[k - 1]);
                    }
                }
            },
            None => {
                assert forall|k: int| 0 <= k < s.len() implies s[k] != 46u8 by {
                    if k > 0 {
                        assert(s[k] == d[k - 1]);
                    }
                }
            },
        }
    }
}

/// Joining one more label appends a dot and the label.
pub proof fn lemma_join_snoc(labels: Seq<Seq<u8>>, last: Seq<u8>)
    ensures
        join_labels(labels.push(last)) == if labels.len() == 0 {
            last
        } else {
            join_labels(labels) + seq![46u8] + last
        },
    decreases labels.len(),
{
    let p = labels.push(last);
    if labels.len() == 0 {
        assert(p.len() == 1);
        assert(p[0] == last);
        assert(join_labels(p) == last);
    } else {
        assert(p[0] == labels[0]);
        assert(p.drop_first() =~= labels.drop_first().push(last));
        lemma_join_snoc(labels.drop_first(), last);
        if labels.len() == 1 {
            assert(labels.drop_first().len() == 0);
            assert(join_labels(p) == p[0] + seq![46u8] + last);
            assert(join_labels(labels) == labels[0]);
        } else {
            assert(join_labels(p) == p[0] + seq![46u8] + join_labels(p.drop_first()));
            assert(join_labels(labels) == labels[0] + seq![46u8] + join_labels(
                labels.drop_first(),
            ));
            assert((labels[0] + seq![46u8] + (join_labels(labels.drop_first()) + seq![46u8] + last))
                =~= (labels[0] + seq![46u8] + join_labels(labels.drop_first())) + seq![46u8]
                + last);
        }
    }
}

/// Appending a label to a prefix extends the wire length by the label's
/// length plus its length byte.
pub proof fn lemma_wire_len_take_step(labels: Seq<Seq<u8>>, i: int)
    requires
        0 <= i < labels.len(),
    ensures
        wire_len_of(labels.take(i + 1)) == wire_len_of(labels.take(i)) + labels[i].len() + 1,
{
    lemma_wire_len_snoc(labels.take(i), labels[i]);
    assert(labels.take(i + 1) =~= labels.take(i).push(labels[i]));
}

/// The wire length of a snoc.
pub proof fn lemma_wire_len_snoc(labels: Seq<Seq<u8>>, last: Seq<u8>)
    ensures
        wire_len_of(labels.push(last)) == wire_len_of(labels) + last.len() + 1,
    decreases labels.len(),
{
    let p = labels.push(last);
    if labels.len() == 0 {
        assert(p.len() == 1);
        assert(p[0] == last);
        assert(p.drop_first() =~= Seq::<Seq<u8>>::empty());
        assert(wire_len_of(p.drop_first()) == 1);
        assert(wire_len_of(p) == last.len() + 2);
        assert(wire_len_of(labels) == 1);
    } else {
        assert(p[0] == labels[0]);
        assert(p.drop_first() =~= labels.drop_first().push(last));
        lemma_wire_len_snoc(labels.drop_first(), last);
        assert(wire_len_of(p) == p[0].len() + 1 + wire_len_of(p.drop_first()));
        assert(wire_len_of(labels) == labels[0].len() + 1 + wire_len_of(labels.drop_first()));
    }
}

/// The wire length never falls below one.
pub proof fn lemma_wire_len_pos(labels: Seq<Seq<u8>>)
    ensures
        wire_len_of(labels) >= 1,
    decreases labels.len(),
{
    if labels.len() > 0 {
        lemma_wire_len_pos(labels.drop_first());
    }
}

/// A prefix never has a larger wire length than the whole.
pub proof fn lemma_wire_len_take_le(labels: Seq<Seq<u8>>, k: int)
    requires
        0 <= k <= labels.len(),
    ensures
        wire_len_of(labels.take(k)) <= wire_len_of(labels),
    decreases labels.len() - k,
{
    if k < labels.len() {
        lemma_wire_len_take_step(labels, k);
        lemma_wire_len_take_le(labels, k + 1);
        assert(labels.take(labels.len() as int) =~= labels);
    } else {
        assert(labels.take(k) =~= labels);
    }
}

} // verus!
