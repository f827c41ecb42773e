//! The human-readable, dig-style form of a question.

use vstd::prelude::*;
use vstd::string::StringSliceAdditionalSpecFns;
use vstd::string::StrSliceExecFns;

use crate::name::push_bytes;
use crate::question::Protocol;
use crate::question::Question;
use crate::question::QuestionV;

verus! {

/// The decimal digits of `n`, most significant first.
pub open spec fn dec_bytes(n: nat) -> Seq<u8>
    decreases n,
{
    if n < 10 {
        seq![(48 + n) as u8]
    } else {
        dec_bytes(n / 10) + seq![(48 + n % 10) as u8]
    }
}

/// The mnemonic of a record type code, as the DNS codec prints it; codes
/// without a mnemonic print as `Unknown`.
pub open spec fn type_mnemonic(code: u16) -> Seq<u8> {
    if code == 1 {
        "A".spec_bytes()
    } else if code == 28 {
        "AAAA".spec_bytes()
    } else if code == 65305 {
        "ANAME".spec_bytes()
    } else if code == 255 {
        "ANY".spec_bytes()
    } else if code == 252 {
        "AXFR".spec_bytes()
    } else if code == 257 {
        "CAA".spec_bytes()
    } else if code == 60 {
        "CDNSKEY".spec_bytes()
    } else if code == 59 {
        "CDS".spec_bytes()
    } else if code == 5 {
        "CNAME".spec_bytes()
    } else if code == 62 {
        "CSYNC".spec_bytes()
    } else if code == 48 {
        "DNSKEY".spec_bytes()
    } else if code == 43 {
        "DS".spec_bytes()
    } else if code == 13 {
        "HINFO".spec_bytes()
    } else if code == 65 {
        "HTTPS".spec_bytes()
    } else if code == 25 {
        "KEY".spec_bytes()
    } else if code == 251 {
        "IXFR".spec_bytes()
    } else if code == 15 {
        "MX".spec_bytes()
    } else if code == 35 {
        "NAPTR".spec_bytes()
    } else if code == 2 {
        "NS".spec_bytes()
    } else if code == 47 {
        "NSEC".spec_bytes()
    } else if code == 50 {
        "NSEC3".spec_bytes()
    } else if code == 51 {
        "NSEC3PARAM".spec_bytes()
    } else if code == 10 {
        "NULL".spec_bytes()
    } else if code == 61 {
        "OPENPGPKEY".spec_bytes()
    } else if code == 41 {
        "OPT".spec_bytes()
    } else if code == 12 {
        "PTR".spec_bytes()
    } else if code == 46 {
        "RRSIG".spec_bytes()
    } else if code == 24 {
        "SIG".spec_bytes()
    } else if code == 6 {
        "SOA".spec_bytes()
    } else if code == 33 {
        "SRV".spec_bytes()
    } else if code == 44 {
        "SSHFP".spec_bytes()
    } else if code == 64 {
        "SVCB".spec_bytes()
    } else if code == 52 {
        "TLSA".spec_bytes()
    } else if code == 250 {
        "TSIG".spec_bytes()
    } else if code == 16 {
        "TXT".spec_bytes()
    } else if code == 0 {
        "ZERO".spec_bytes()
    } else {
        "Unknown".spec_bytes()
    }
}

/// The transport suffix.
pub open spec fn proto_bytes(p: Protocol) -> Seq<u8> {
    match p {
        Protocol::Udp => "udp".spec_bytes(),
        Protocol::Tcp => "tcp".spec_bytes(),
    }
}

/// The rendered question: name, type mnemonic and flags, in the dig style
/// `name TYPE +[no]recurse +edns v +[no]dnssec +[no]ednsopt[ code] +proto`
/// with EDNS, and `name TYPE +[no]recurse +noedns +proto` without.
pub open spec fn spec_render(q: QuestionV) -> Seq<u8> {
    let head = q.qname.display() + " ".spec_bytes() + type_mnemonic(q.qtype) + " +".spec_bytes()
        + (if q.recursion_desired {
        Seq::<u8>::empty()
    } else {
        "no".spec_bytes()
    }) + "recurse".spec_bytes();
    match q.edns_config {
        None => head + " +noedns +".spec_bytes() + proto_bytes(q.proto),
        Some(e) => {
            let mid = head + " +edns ".spec_bytes() + dec_bytes(e.version as nat)
                + " +".spec_bytes() + (if e.dnssec_ok {
                Seq::<u8>::empty()
            } else {
                "no".spec_bytes()
            }) + "dnssec +".spec_bytes();
            let opt = if e.option_code != 0 {
                mid + "ednsopt ".spec_bytes() + dec_bytes(e.option_code as nat)
            } else {
                mid + "noednsopt".spec_bytes()
            };
            opt + " +".spec_bytes() + proto_bytes(q.proto)
        },
    }
}

/// Appends an ASCII literal's bytes.
pub fn push_str_bytes(out: &mut Vec<u8>, s: &str)
    ensures
        final(out)@ == old(out)@ + s.spec_bytes(),
{
    let v = s.as_bytes_vec();
    push_bytes(out, &v);
}

/// Appends the decimal digits of `x`.
pub fn push_decimal(out: &mut Vec<u8>, x: u64)
    ensures
        final(out)@ == old(out)@ + dec_bytes(x as nat),
    decreases x,
{
    if x < 10 {
        out.push(48 + x as u8);
        assert(out@ =~= old(out)@ + dec_bytes(x as nat));
    } else {
        push_decimal(out, x / 10);
        out.push(48 + (x % 10) as u8);
        proof {
            assert((x / 10) as nat == x as nat / 10);
            assert((x % 10) as nat == x as nat % 10);
            assert(out@ =~= old(out)@ + dec_bytes(x as nat));
        }
    }
}

/// Appends the mnemonic of a record type code.
pub fn push_type_name(out: &mut Vec<u8>, code: u16)
    ensures
        final(out)@ == old(out)@ + type_mnemonic(code),
{
    match code {
        1 => push_str_bytes(out, "A"),
        28 => push_str_bytes(out, "AAAA"),
        65305 => push_str_bytes(out, "ANAME"),
        255 => push_str_bytes(out, "ANY"),
        252 => push_str_bytes(out, "AXFR"),
        257 => push_str_bytes(out, "CAA"),
        60 => push_str_bytes(out, "CDNSKEY"),
        59 => push_str_bytes(out, "CDS"),
        5 => push_str_bytes(out, "CNAME"),
        62 => push_str_bytes(out, "CSYNC"),
        48 => push_str_bytes(out, "DNSKEY"),
        43 => push_str_bytes(out, "DS"),
        13 => push_str_bytes(out, "HINFO"),
        65 => push_str_bytes(out, "HTTPS"),
        25 => push_str_bytes(out, "KEY"),
        251 => push_str_bytes(out, "IXFR"),
        15 => push_str_bytes(out, "MX"),
        35 => push_str_bytes(out, "NAPTR"),
        2 => push_str_bytes(out, "NS"),
        47 => push_str_bytes(out, "NSEC"),
        50 => push_str_bytes(out, "NSEC3"),
        51 => push_str_bytes(out, "NSEC3PARAM"),
        10 => push_str_bytes(out, "NULL"),
        61 => push_str_bytes(out, "OPENPGPKEY"),
        41 => push_str_bytes(out, "OPT"),
        12 => push_str_bytes(out, "PTR"),
        46 => push_str_bytes(out, "RRSIG"),
        24 => push_str_bytes(out, "SIG"),
        6 => push_str_bytes(out, "SOA"),
        33 => push_str_bytes(out, "SRV"),
        44 => push_str_bytes(out, "SSHFP"),
        64 => push_str_bytes(out, "SVCB"),
        52 => push_str_bytes(out, "TLSA"),
        250 => push_str_bytes(out, "TSIG"),
        16 => push_str_bytes(out, "TXT"),
        0 => push_str_bytes(out, "ZERO"),
        _ => push_str_bytes(out, "Unknown"),
    }
}

impl Question {
    /// Renders the question into its dig-style byte form.
    pub fn to_display_bytes(&self) -> (r: Vec<u8>)
        ensures
            r@ == spec_render(self@),
    {
        let mut out: Vec<u8> = Vec::new();
        let name_bytes = self.qname.to_display_bytes();
        push_bytes(&mut out, &name_bytes);
        push_str_bytes(&mut out, " ");
        push_type_name(&mut out, self.qtype);
        push_str_bytes(&mut out, " +");
        if !self.recursion_desired {
            push_str_bytes(&mut out, "no");
        } else {
            assert(out@ =~= out@ + Seq::<u8>::empty());
        }
        push_str_bytes(&mut out, "recurse");
        match &self.edns_config {
            None => {
                push_str_bytes(&mut out, " +noedns +");
            },
            Some(e) => {
                push_str_bytes(&mut out, " +edns ");
                push_decimal(&mut out, e.version as u64);
                push_str_bytes(&mut out, " +");
                if !e.dnssec_ok {
                    push_str_bytes(&mut out, "no");
                } else {
                    assert(out@ =~= out@ + Seq::<u8>::empty());
                }
                push_str_bytes(&mut out, "dnssec +");
                if e.option_code != 0 {
                    push_str_bytes(&mut out, "ednsopt ");
                    push_decimal(&mut out, e.option_code as u64);
                } else {
                    push_str_bytes(&mut out, "noednsopt");
                }
                push_str_bytes(&mut out, " +");
            },
        }
        match self.proto {
            Protocol::Udp => push_str_bytes(&mut out, "udp"),
            Protocol::Tcp => push_str_bytes(&mut out, "tcp"),
        }
        assert(out@ =~= spec_render(self@));
        out
    }

    /// Renders the question as a string; exact whenever every byte of the
    /// rendering is ASCII, which holds for every name the textual parser
    /// accepts.
    pub fn to_display_string(&self) -> (r: String)
        ensures
            (forall|i: int|
                0 <= i < spec_render(self@).len() ==> #[trigger] spec_render(self@)[i]
                    < 128) ==> r@ == Seq::new(
                spec_render(self@).len(),
                |i: int| spec_render(self@)[i] as char,
            ),
    {
        let bytes = self.to_display_bytes();
        ascii_string(bytes)
    }
}

/// Relies on std's `String::from_utf8`: decoding ASCII bytes as UTF-8 is
/// the identity; bytes that are not valid UTF-8 yield an empty string
/// rather than a panic.
#[verifier::external_body]
fn ascii_string(bytes: Vec<u8>) -> (r: String)
    ensures
        (forall|i: int| 0 <= i < bytes@.len() ==> #[trigger] bytes@[i] < 128) ==> r@ == Seq::new(
            bytes@.len(),
            |i: int| bytes@[i] as char,
        ),
{
    match String::from_utf8(bytes) {
        Ok(s) => s,
        Err(_) => String::new(),
    }
}

} // verus!
