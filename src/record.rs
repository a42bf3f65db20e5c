use vstd::prelude::*;

use crate::codes::RCODE;
use crate::cursor::{u16_at, DataWrapper};
use crate::error::DecodeError;
use crate::flags::{flag_bytes, flags_from, Flags};
use crate::name::{decode_name, lemma_name_round_trip, name_bytes, name_ok, DNSLabel};

verus! {

/// The fixed-size header at the start of every message.
#[derive(Debug, Clone, Copy, PartialEq, Eq, Structural)]
pub struct DNSHeader {
    pub id: u16,
    pub flags: Flags,
    pub qdcount: u16,
    pub ancount: u16,
    pub nscount: u16,
    pub arcount: u16,
}

/// A question: a name, a record type and a class.
#[derive(Debug, Clone)]
pub struct DNSQuery {
    pub qname: DNSLabel,
    pub qtype: u16,
    pub qclass: u16,
}

/// A resource record. Its data length is that of `rdata`.
#[derive(Debug, Clone)]
pub struct DNSResource {
    pub name: DNSLabel,
    pub rtype: u16,
    pub class: u16,
    pub ttl: u32,
    pub rdata: Vec<u8>,
}

/// What a question holds.
pub struct QueryView {
    pub name: Seq<Seq<u8>>,
    pub qtype: u16,
    pub qclass: u16,
}

/// What a resource record holds.
pub struct ResourceView {
    pub name: Seq<Seq<u8>>,
    pub rtype: u16,
    pub class: u16,
    pub ttl: u32,
    pub rdata: Seq<u8>,
}

impl View for DNSQuery {
    type V = QueryView;

    open spec fn view(&self) -> QueryView {
        QueryView { name: self.qname@, qtype: self.qtype, qclass: self.qclass }
    }
}

impl View for DNSResource {
    type V = ResourceView;

    open spec fn view(&self) -> ResourceView {
        ResourceView {
            name: self.name@,
            rtype: self.rtype,
            class: self.class,
            ttl: self.ttl,
            rdata: self.rdata@,
        }
    }
}

/// A 16-bit integer on the wire, big-endian.
pub open spec fn u16_bytes(x: u16) -> Seq<u8> {
    seq![(x / 256) as u8, (x % 256) as u8]
}

/// A 32-bit integer on the wire, big-endian.
pub open spec fn u32_bytes(x: u32) -> Seq<u8> {
    u16_bytes((x / 65536) as u16) + u16_bytes((x % 65536) as u16)
}

/// Reads the big-endian 32-bit integer at `pos`.
pub open spec fn u32_at(buf: Seq<u8>, pos: int) -> u32 {
    (u16_at(buf, pos) as int * 65536 + u16_at(buf, pos + 2) as int) as u32
}

/// The header on the wire: 12 bytes.
pub open spec fn header_bytes(h: DNSHeader) -> Seq<u8> {
    u16_bytes(h.id) + seq![flag_bytes(h.flags).0, flag_bytes(h.flags).1] + u16_bytes(h.qdcount)
        + u16_bytes(h.ancount) + u16_bytes(h.nscount) + u16_bytes(h.arcount)
}

/// A question on the wire, its name uncompressed.
pub open spec fn query_bytes(q: QueryView) -> Seq<u8> {
    name_bytes(q.name) + u16_bytes(q.qtype) + u16_bytes(q.qclass)
}

/// A resource record on the wire, its name uncompressed; the data length is
/// that of the data.
pub open spec fn resource_bytes(r: ResourceView) -> Seq<u8> {
    name_bytes(r.name) + u16_bytes(r.rtype) + u16_bytes(r.class) + u32_bytes(r.ttl) + u16_bytes(
        r.rdata.len() as u16,
    ) + r.rdata
}

/// Decodes the header at `pos`.
pub open spec fn header_at(buf: Seq<u8>, pos: int) -> Result<DNSHeader, DecodeError> {
    if pos < 0 || pos + 12 > buf.len() {
        Err(DecodeError::Truncated)
    } else {
        Ok(
            DNSHeader {
                id: u16_at(buf, pos),
                flags: flags_from(buf[pos + 2], buf[pos + 3]),
                qdcount: u16_at(buf, pos + 4),
                ancount: u16_at(buf, pos + 6),
                nscount: u16_at(buf, pos + 8),
                arcount: u16_at(buf, pos + 10),
            },
        )
    }
}

/// Decodes the question at `pos`; on success also the offset past it.
pub open spec fn query_at(buf: Seq<u8>, pos: int) -> Result<(QueryView, int), DecodeError> {
    match decode_name(buf, pos) {
        Ok((name, e)) => if e + 4 > buf.len() {
            Err(DecodeError::Truncated)
        } else {
            Ok(
                (
                    QueryView { name, qtype: u16_at(buf, e), qclass: u16_at(buf, e + 2) },
                    e + 4,
                ),
            )
        },
        Err(err) => Err(err),
    }
}

/// Decodes the resource record at `pos`; on success also the offset past it.
pub open spec fn resource_at(buf: Seq<u8>, pos: int) -> Result<(ResourceView, int), DecodeError> {
    match decode_name(buf, pos) {
        Ok((name, e)) => if e + 10 > buf.len() || e + 10 + u16_at(buf, e + 8) > buf.len() {
            Err(DecodeError::Truncated)
        } else {
            Ok(
                (
                    ResourceView {
                        name,
                        rtype: u16_at(buf, e),
                        class: u16_at(buf, e + 2),
                        ttl: u32_at(buf, e + 4),
                        rdata: buf.subrange(e + 10, e + 10 + u16_at(buf, e + 8)),
                    },
                    e + 10 + u16_at(buf, e + 8),
                ),
            )
        },
        Err(err) => Err(err),
    }
}

/// Every big-endian 16-bit integer reads back as itself.
pub proof fn lemma_u16_round_trip(x: u16, pre: Seq<u8>, suf: Seq<u8>)
    ensures
        u16_at(pre + u16_bytes(x) + suf, pre.len() as int) == x,
{
    let buf = pre + u16_bytes(x) + suf;
    assert(buf[pre.len() as int] == (x / 256) as u8);
    assert(buf[pre.len() as int + 1] == (x % 256) as u8);
}

/// Every big-endian 32-bit integer reads back as itself.
pub proof fn lemma_u32_round_trip(x: u32, pre: Seq<u8>, suf: Seq<u8>)
    ensures
        u32_at(pre + u32_bytes(x) + suf, pre.len() as int) == x,
{
    let hi = u16_bytes((x / 65536) as u16);
    let lo = u16_bytes((x % 65536) as u16);
    assert(pre + u32_bytes(x) + suf =~= pre + hi + (lo + suf));
    lemma_u16_round_trip((x / 65536) as u16, pre, lo + suf);
    assert(pre + u32_bytes(x) + suf =~= (pre + hi) + lo + suf);
    lemma_u16_round_trip((x % 65536) as u16, pre + hi, suf);
}

/// Appends a big-endian 16-bit integer.
fn push_u16(out: &mut Vec<u8>, x: u16)
    ensures
        final(out)@ == old(out)@ + u16_bytes(x),
{
    out.push((x / 256) as u8);
    out.push((x % 256) as u8);
    assert(final(out)@ =~= old(out)@ + u16_bytes(x));
}

/// Appends a big-endian 32-bit integer.
fn push_u32(out: &mut Vec<u8>, x: u32)
    ensures
        final(out)@ == old(out)@ + u32_bytes(x),
{
    push_u16(out, (x / 65536) as u16);
    push_u16(out, (x % 65536) as u16);
    assert(final(out)@ =~= old(out)@ + u32_bytes(x));
}

/// Appends all of `bytes`.
fn push_all(out: &mut Vec<u8>, bytes: &Vec<u8>)
    ensures
        final(out)@ == old(out)@ + bytes@,
{
    let mut i: usize = 0;
    while i < bytes.len()
        invariant
            i <= bytes@.len(),
            out@ == old(out)@ + bytes@.take(i as int),
        decreases bytes@.len() - i,
    {
        out.push(bytes[i]);
        i = i + 1;
        assert(out@ =~= old(out)@ + bytes@.take(i as int));
    }
    assert(bytes@.take(i as int) =~= bytes@);
}

impl DNSHeader {
    /// Every field fits its width.
    pub open spec fn wf(&self) -> bool {
        self.flags.wf()
    }

    /// Reads the 12 header bytes under the cursor.
    pub fn deserialize(buf: &mut DataWrapper) -> (r: Result<DNSHeader, DecodeError>)
        requires
            old(buf).wf(),
        ensures
            final(buf).wf(),
            final(buf).bytes() == old(buf).bytes(),
            r == header_at(old(buf).bytes(), old(buf).at()),
            r.is_ok() ==> final(buf).at() == old(buf).at() + 12 && r.unwrap().wf(),
    {
        if buf.len() - buf.pos() < 12 {
            return Err(DecodeError::Truncated);
        }
        let id = match buf.get_u16() { Ok(v) => v, Err(e) => return Err(e) };
        let flags = match Flags::deserialize(buf) { Ok(v) => v, Err(e) => return Err(e) };
        let qdcount = match buf.get_u16() { Ok(v) => v, Err(e) => return Err(e) };
        let ancount = match buf.get_u16() { Ok(v) => v, Err(e) => return Err(e) };
        let nscount = match buf.get_u16() { Ok(v) => v, Err(e) => return Err(e) };
        let arcount = match buf.get_u16() { Ok(v) => v, Err(e) => return Err(e) };
        proof {
            crate::flags::lemma_flags_from_wf(
                buf.bytes()[old(buf).at() + 2],
                buf.bytes()[old(buf).at() + 3],
            );
        }
        Ok(DNSHeader { id, flags, qdcount, ancount, nscount, arcount })
    }

    /// The 12 header bytes.
    pub fn serialize(&self) -> (r: Vec<u8>)
        ensures
            r@ == header_bytes(*self),
    {
        let mut out: Vec<u8> = Vec::new();
        push_u16(&mut out, self.id);
        let mut flags = self.flags.serialize();
        out.append(&mut flags);
        push_u16(&mut out, self.qdcount);
        push_u16(&mut out, self.ancount);
        push_u16(&mut out, self.nscount);
        push_u16(&mut out, self.arcount);
        assert(out@ =~= header_bytes(*self));
        out
    }

    /// Sets the response status; nothing else changes.
    pub fn set_rcode(&mut self, code: RCODE)
        ensures
            *final(self) == (DNSHeader { flags: Flags { rcode: code, ..old(self).flags }, ..*old(self) }),
    {
        self.flags.rcode = code;
    }

    /// Marks the message as a response; nothing else changes.
    pub fn to_response(&mut self)
        ensures
            *final(self) == (DNSHeader { flags: Flags { qr: true, ..old(self).flags }, ..*old(self) }),
    {
        self.flags.qr = true;
    }
}

impl DNSQuery {
    /// Its name may be written on the wire.
    pub open spec fn wf(&self) -> bool {
        self.qname.wf()
    }

    /// Reads the question under the cursor and moves past it.
    pub fn deserialize(buf: &mut DataWrapper) -> (r: Result<DNSQuery, DecodeError>)
        requires
            old(buf).wf(),
        ensures
            final(buf).wf(),
            final(buf).bytes() == old(buf).bytes(),
            match query_at(old(buf).bytes(), old(buf).at()) {
                Ok((q, e)) => r.is_ok() && r.unwrap()@ == q && r.unwrap().wf() && final(buf).at()
                    == e,
                Err(e) => r.is_err() && r->Err_0 == e,
            },
    {
        let qname = match buf.follow_label() {
            Ok(n) => n,
            Err(e) => return Err(e),
        };
        if buf.len() - buf.pos() < 4 {
            return Err(DecodeError::Truncated);
        }
        let qtype = match buf.get_u16() { Ok(v) => v, Err(e) => return Err(e) };
        let qclass = match buf.get_u16() { Ok(v) => v, Err(e) => return Err(e) };
        Ok(DNSQuery { qname, qtype, qclass })
    }

    /// The question on the wire, its name uncompressed.
    pub fn serialize(&self) -> (r: Vec<u8>)
        ensures
            r@ == query_bytes(self@),
    {
        let mut out = self.qname.serialize();
        push_u16(&mut out, self.qtype);
        push_u16(&mut out, self.qclass);
        out
    }
}

impl DNSResource {
    /// Its name may be written on the wire, and its data length fits 16 bits.
    pub open spec fn wf(&self) -> bool {
        self.name.wf() && self.rdata@.len() <= 65535
    }

    /// Reads the resource record under the cursor and moves past it.
    pub fn deserialize(buf: &mut DataWrapper) -> (r: Result<DNSResource, DecodeError>)
        requires
            old(buf).wf(),
        ensures
            final(buf).wf(),
            final(buf).bytes() == old(buf).bytes(),
            match resource_at(old(buf).bytes(), old(buf).at()) {
                Ok((x, e)) => r.is_ok() && r.unwrap()@ == x && r.unwrap().wf() && final(buf).at()
                    == e,
                Err(e) => r.is_err() && r->Err_0 == e,
            },
    {
        let name = match buf.follow_label() {
            Ok(n) => n,
            Err(e) => return Err(e),
        };
        if buf.len() - buf.pos() < 10 {
            return Err(DecodeError::Truncated);
        }
        let rtype = match buf.get_u16() { Ok(v) => v, Err(e) => return Err(e) };
        let class = match buf.get_u16() { Ok(v) => v, Err(e) => return Err(e) };
        let ttl_hi = match buf.get_u16() { Ok(v) => v, Err(e) => return Err(e) };
        let ttl_lo = match buf.get_u16() { Ok(v) => v, Err(e) => return Err(e) };
        let rdlength = match buf.get_u16() { Ok(v) => v, Err(e) => return Err(e) };
        let rdata = match buf.take(rdlength as usize) {
            Ok(d) => d,
            Err(e) => return Err(e),
        };
        let ttl = ttl_hi as u32 * 65536 + ttl_lo as u32;
        Ok(DNSResource { name, rtype, class, ttl, rdata })
    }

    /// The record on the wire, its name uncompressed; the length field is
    /// that of the data.
    pub fn serialize(&self) -> (r: Vec<u8>)
        ensures
            r@ == resource_bytes(self@),
    {
        let mut out = self.name.serialize();
        push_u16(&mut out, self.rtype);
        push_u16(&mut out, self.class);
        push_u32(&mut out, self.ttl);
        push_u16(&mut out, self.rdata.len() as u16);
        push_all(&mut out, &self.rdata);
        out
    }
}

/// A question whose name may be written reads back as itself, wherever it
/// stands in a buffer.
pub proof fn lemma_query_round_trip(q: QueryView, pre: Seq<u8>, suf: Seq<u8>)
    requires
        name_ok(q.name),
    ensures
        query_at(pre + query_bytes(q) + suf, pre.len() as int) == Ok::<(QueryView, int), DecodeError>(
            (q, (pre.len() + query_bytes(q).len()) as int),
        ),
{
    let buf = pre + query_bytes(q) + suf;
    let tail = u16_bytes(q.qtype) + u16_bytes(q.qclass) + suf;
    assert(buf =~= pre + name_bytes(q.name) + tail);
    lemma_name_round_trip(q.name, pre, tail, crate::name::MAX_JUMPS as nat);
    let p1 = pre + name_bytes(q.name);
    assert(buf =~= p1 + u16_bytes(q.qtype) + (u16_bytes(q.qclass) + suf));
    lemma_u16_round_trip(q.qtype, p1, u16_bytes(q.qclass) + suf);
    let p2 = p1 + u16_bytes(q.qtype);
    assert(buf =~= p2 + u16_bytes(q.qclass) + suf);
    lemma_u16_round_trip(q.qclass, p2, suf);
}

/// A record whose name may be written and whose data fits a 16-bit length
/// reads back as itself, wherever it stands in a buffer.
pub proof fn lemma_resource_round_trip(x: ResourceView, pre: Seq<u8>, suf: Seq<u8>)
    requires
        name_ok(x.name),
        x.rdata.len() <= 65535,
    ensures
        resource_at(pre + resource_bytes(x) + suf, pre.len() as int) == Ok::<
            (ResourceView, int),
            DecodeError,
        >((x, (pre.len() + resource_bytes(x).len()) as int)),
{
    let buf = pre + resource_bytes(x) + suf;
    let n = x.rdata.len() as u16;
    let t = u16_bytes(x.rtype);
    let c = u16_bytes(x.class);
    let ttl = u32_bytes(x.ttl);
    let rl = u16_bytes(n);
    assert(buf =~= pre + name_bytes(x.name) + (t + c + ttl + rl + x.rdata + suf));
    lemma_name_round_trip(x.name, pre, t + c + ttl + rl + x.rdata + suf, crate::name::MAX_JUMPS as nat);
    let p1 = pre + name_bytes(x.name);
    assert(buf =~= p1 + t + (c + ttl + rl + x.rdata + suf));
    lemma_u16_round_trip(x.rtype, p1, c + ttl + rl + x.rdata + suf);
    let p2 = p1 + t;
    assert(buf =~= p2 + c + (ttl + rl + x.rdata + suf));
    lemma_u16_round_trip(x.class, p2, ttl + rl + x.rdata + suf);
    let p3 = p2 + c;
    assert(buf =~= p3 + ttl + (rl + x.rdata + suf));
    lemma_u32_round_trip(x.ttl, p3, rl + x.rdata + suf);
    let p4 = p3 + ttl;
    assert(buf =~= p4 + rl + (x.rdata + suf));
    lemma_u16_round_trip(n, p4, x.rdata + suf);
    let p5 = p4 + rl;
    assert(buf.subrange(p5.len() as int, (p5.len() + x.rdata.len()) as int) =~= x.rdata);
}

/// A header whose fields fit their widths reads back as itself.
pub proof fn lemma_header_round_trip(h: DNSHeader, pre: Seq<u8>, suf: Seq<u8>)
    requires
        h.wf(),
    ensures
        header_at(pre + header_bytes(h) + suf, pre.len() as int) == Ok::<DNSHeader, DecodeError>(h),
{
    let buf = pre + header_bytes(h) + suf;
    let p = pre.len() as int;
    let fb = seq![flag_bytes(h.flags).0, flag_bytes(h.flags).1];
    let c = u16_bytes(h.qdcount) + u16_bytes(h.ancount) + u16_bytes(h.nscount) + u16_bytes(
        h.arcount,
    );
    assert(buf =~= pre + u16_bytes(h.id) + (fb + c + suf));
    lemma_u16_round_trip(h.id, pre, fb + c + suf);
    assert(buf[p + 2] == flag_bytes(h.flags).0);
    assert(buf[p + 3] == flag_bytes(h.flags).1);
    crate::flags::lemma_flags_unpack_pack(h.flags);
    let p4 = pre + u16_bytes(h.id) + fb;
    assert(buf =~= p4 + u16_bytes(h.qdcount) + (u16_bytes(h.ancount) + u16_bytes(h.nscount)
        + u16_bytes(h.arcount) + suf));
    lemma_u16_round_trip(h.qdcount, p4, u16_bytes(h.ancount) + u16_bytes(h.nscount) + u16_bytes(h.arcount) + suf);
    let p6 = p4 + u16_bytes(h.qdcount);
    assert(buf =~= p6 + u16_bytes(h.ancount) + (u16_bytes(h.nscount) + u16_bytes(h.arcount) + suf));
    lemma_u16_round_trip(h.ancount, p6, u16_bytes(h.nscount) + u16_bytes(h.arcount) + suf);
    let p8 = p6 + u16_bytes(h.ancount);
    assert(buf =~= p8 + u16_bytes(h.nscount) + (u16_bytes(h.arcount) + suf));
    lemma_u16_round_trip(h.nscount, p8, u16_bytes(h.arcount) + suf);
    let p10 = p8 + u16_bytes(h.nscount);
    assert(buf =~= p10 + u16_bytes(h.arcount) + suf);
    lemma_u16_round_trip(h.arcount, p10, suf);
}

} // verus!
