//! The probe identity: transport protocol, EDNS configuration and the
//! question value itself.

use vstd::prelude::*;

use crate::name::clone_labels;
use crate::name::DnsName;
use crate::name::NameV;

verus! {

/// The transport a probe uses, with its stable integer encoding
/// (datagram = 1, stream = 2).
#[derive(Clone, Copy, Debug, PartialEq, Eq, Structural)]
pub enum Protocol {
    Udp,
    Tcp,
}

impl Protocol {
    /// The stable integer code of each transport; part of the external ABI.
    pub open spec fn spec_code(self) -> u8 {
        match self {
            Protocol::Udp => 1,
            Protocol::Tcp => 2,
        }
    }

    /// Maps the transport to its stable integer code.
    pub fn code(self) -> (r: u8)
        ensures
            r == self.spec_code(),
    {
        match self {
            Protocol::Udp => 1,
            Protocol::Tcp => 2,
        }
    }

    /// Decodes a transport from its stable integer code.
    pub fn from_code(code: u8) -> (r: Option<Protocol>)
        ensures
            match r {
                Some(p) => p.spec_code() == code,
                None => forall|p: Protocol| p.spec_code() != code,
            },
    {
        match code {
            1 => Some(Protocol::Udp),
            2 => Some(Protocol::Tcp),
            _ => None,
        }
    }
}

/// The model of an [`EdnsConfig`].
#[verifier::ext_equal]
pub struct EdnsV {
    pub version: u8,
    pub dnssec_ok: bool,
    pub max_payload: u16,
    pub option_code: u16,
    pub option_value: Seq<u8>,
}

/// Optional EDNS settings of a question: protocol version, the DNSSEC OK
/// flag, the advertised datagram payload size, and at most one custom
/// option. A zero `option_code` means no custom option is attached.
#[derive(Debug)]
pub struct EdnsConfig {
    pub version: u8,
    pub dnssec_ok: bool,
    pub max_payload: u16,
    pub option_code: u16,
    pub option_value: Vec<u8>,
}

impl View for EdnsConfig {
    type V = EdnsV;

    open spec fn view(&self) -> EdnsV {
        EdnsV {
            version: self.version,
            dnssec_ok: self.dnssec_ok,
            max_payload: self.max_payload,
            option_code: self.option_code,
            option_value: self.option_value@,
        }
    }
}

impl Clone for EdnsConfig {
    fn clone(&self) -> (r: Self)
        ensures
            r@ == self@,
    {
        let value: Vec<u8> = self.option_value.clone();
        assert(value@ == self.option_value@);
        let r = EdnsConfig {
            version: self.version,
            dnssec_ok: self.dnssec_ok,
            max_payload: self.max_payload,
            option_code: self.option_code,
            option_value: value,
        };
        assert(r@ =~= self@);
        r
    }
}

/// The model of a [`Question`].
#[verifier::ext_equal]
pub struct QuestionV {
    pub qname: NameV,
    pub qtype: u16,
    pub proto: Protocol,
    pub recursion_desired: bool,
    pub edns_config: Option<EdnsV>,
}

impl QuestionV {
    /// A question is well formed when its name is and its option value can
    /// be carried by the on-disk encoding.
    pub open spec fn wf(self) -> bool {
        &&& self.qname.wf()
        &&& match self.edns_config {
            Some(e) => e.option_value.len() <= u32::MAX,
            None => true,
        }
    }
}

/// A probe identity: name, record type, transport, recursion flag and
/// optional EDNS settings. Equality spans every field, byte-exact for the
/// EDNS option value.
#[derive(Debug)]
pub struct Question {
    pub qname: DnsName,
    pub qtype: u16,
    pub proto: Protocol,
    pub recursion_desired: bool,
    pub edns_config: Option<EdnsConfig>,
}

impl View for Question {
    type V = QuestionV;

    open spec fn view(&self) -> QuestionV {
        QuestionV {
            qname: self.qname@,
            qtype: self.qtype,
            proto: self.proto,
            recursion_desired: self.recursion_desired,
            edns_config: match self.edns_config {
                Some(ref e) => Some(e@),
                None => None,
            },
        }
    }
}

impl Clone for Question {
    fn clone(&self) -> (r: Self)
        ensures
            r@ == self@,
    {
        let edns_config = match &self.edns_config {
            Some(e) => Some(e.clone()),
            None => None,
        };
        let r = Question {
            qname: self.qname.clone(),
            qtype: self.qtype,
            proto: self.proto,
            recursion_desired: self.recursion_desired,
            edns_config,
        };
        assert(r@ =~= self@);
        r
    }
}

impl Question {
    /// Whether the question is well formed.
    pub open spec fn wf(self) -> bool {
        self@.wf()
    }

    /// Builds a question without EDNS settings.
    pub fn new(qname: DnsName, qtype: u16, proto: Protocol, recursion_desired: bool) -> (r:
        Question)
        ensures
            r@ == (QuestionV {
                qname: qname@,
                qtype,
                proto,
                recursion_desired,
                edns_config: None,
            }),
    {
        Question { qname, qtype, proto, recursion_desired, edns_config: None }
    }

    /// Attaches EDNS settings, replacing any present before.
    pub fn set_edns(
        &mut self,
        version: u8,
        dnssec_ok: bool,
        max_payload: u16,
        option_code: u16,
        option_value: Vec<u8>,
    )
        ensures
            final(self)@ == (QuestionV {
                edns_config: Some(
                    EdnsV {
                        version,
                        dnssec_ok,
                        max_payload,
                        option_code,
                        option_value: option_value@,
                    },
                ),
                ..old(self)@
            }),
    {
        self.edns_config = Some(
            EdnsConfig { version, dnssec_ok, max_payload, option_code, option_value },
        );
        assert(self@ =~= (QuestionV {
            edns_config: Some(
                EdnsV {
                    version,
                    dnssec_ok,
                    max_payload,
                    option_code,
                    option_value: self.edns_config->Some_0.option_value@,
                },
            ),
            ..old(self)@
        }));
    }

    /// Field-by-field equality; matches equality of the models.
    pub fn same_as(&self, other: &Question) -> (r: bool)
        ensures
            r == (self@ == other@),
    {
        if self.qtype != other.qtype || !protocol_eq(self.proto, other.proto)
            || self.recursion_desired != other.recursion_desired {
            return false;
        }
        if !name_eq(&self.qname, &other.qname) {
            return false;
        }
        match (&self.edns_config, &other.edns_config) {
            (None, None) => {
                assert(self@ =~= other@);
                true
            },
            (Some(a), Some(b)) => {
                let same = a.version == b.version && a.dnssec_ok == b.dnssec_ok && a.max_payload
                    == b.max_payload && a.option_code == b.option_code && bytes_eq(
                    &a.option_value,
                    &b.option_value,
                );
                if same {
                    assert(a@ =~= b@);
                    assert(self@ =~= other@);
                }
                same
            },
            _ => false,
        }
    }
}

/// Equality on transports, usable from verified code.
pub fn protocol_eq(a: Protocol, b: Protocol) -> (r: bool)
    ensures
        r == (a == b),
{
    match (a, b) {
        (Protocol::Udp, Protocol::Udp) => true,
        (Protocol::Tcp, Protocol::Tcp) => true,
        _ => false,
    }
}

/// Byte-string equality; matches equality of the views.
pub fn bytes_eq(a: &Vec<u8>, b: &Vec<u8>) -> (r: bool)
    ensures
        r == (a@ == b@),
{
    if a.len() != b.len() {
        return false;
    }
    let mut i: usize = 0;
    while i < a.len()
        invariant
            a@.len() == b@.len(),
            i <= a@.len(),
            forall|k: int| 0 <= k < i ==> a@[k] == b@[k],
        decreases a@.len() - i,
    {
        if a[i] != b[i] {
            return false;
        }
        i += 1;
    }
    assert(a@ =~= b@);
    true
}

/// Name equality; matches equality of the models.
pub fn name_eq(a: &DnsName, b: &DnsName) -> (r: bool)
    ensures
        r == (a@ == b@),
{
    if a.is_fqdn() != b.is_fqdn() {
        return false;
    }
    let n = a.label_count();
    if n != b.label_count() {
        return false;
    }
    let mut i: usize = 0;
    while i < n
        invariant
            n == a@.labels.len(),
            n == b@.labels.len(),
            a@.fqdn == b@.fqdn,
            i <= n,
            forall|k: int| 0 <= k < i ==> a@.labels[k] == b@.labels[k],
        decreases n - i,
    {
        if !bytes_eq(a.label_at(i), b.label_at(i)) {
            return false;
        }
        i += 1;
    }
    assert(a@.labels =~= b@.labels);
    assert(a@ =~= b@);
    true
}

} // verus!
