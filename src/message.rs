use vstd::prelude::*;

use crate::codes::{OPCODE, RCODE};
use crate::cursor::DataWrapper;
use crate::error::DecodeError;
use crate::record::{
    header_at, header_bytes, lemma_header_round_trip, lemma_query_round_trip,
    lemma_resource_round_trip, query_at, query_bytes, resource_at, resource_bytes, DNSHeader,
    DNSQuery, DNSResource, QueryView, ResourceView,
};

verus! {

/// A whole message: the header, then the questions, the answers, the
/// authority records and the additional records.
#[derive(Debug)]
pub struct DNSMessage {
    pub header: DNSHeader,
    pub queries: Vec<DNSQuery>,
    pub resources: Vec<DNSResource>,
    pub authorities: Vec<DNSResource>,
    pub additionals: Vec<DNSResource>,
}

/// What a message holds.
pub struct MessageView {
    pub header: DNSHeader,
    pub queries: Seq<QueryView>,
    pub resources: Seq<ResourceView>,
    pub authorities: Seq<ResourceView>,
    pub additionals: Seq<ResourceView>,
}

/// What a list of questions holds.
pub open spec fn queries_view(v: Seq<DNSQuery>) -> Seq<QueryView> {
    v.map_values(|q: DNSQuery| q@)
}

/// What a list of resource records holds.
pub open spec fn resources_view(v: Seq<DNSResource>) -> Seq<ResourceView> {
    v.map_values(|x: DNSResource| x@)
}

impl View for DNSMessage {
    type V = MessageView;

    open spec fn view(&self) -> MessageView {
        MessageView {
            header: self.header,
            queries: queries_view(self.queries@),
            resources: resources_view(self.resources@),
            authorities: resources_view(self.authorities@),
            additionals: resources_view(self.additionals@),
        }
    }
}

/// Decodes `n` questions one after another from `pos`; on success also the
/// offset past the last.
pub open spec fn queries_at(buf: Seq<u8>, pos: int, n: nat) -> Result<
    (Seq<QueryView>, int),
    DecodeError,
>
    decreases n,
{
    if n == 0 {
        Ok((Seq::empty(), pos))
    } else {
        match queries_at(buf, pos, (n - 1) as nat) {
            Ok((qs, e)) => match query_at(buf, e) {
                Ok((q, e2)) => Ok((qs.push(q), e2)),
                Err(err) => Err(err),
            },
            Err(err) => Err(err),
        }
    }
}

/// Decodes `n` resource records one after another from `pos`; on success
/// also the offset past the last.
pub open spec fn resources_at(buf: Seq<u8>, pos: int, n: nat) -> Result<
    (Seq<ResourceView>, int),
    DecodeError,
>
    decreases n,
{
    if n == 0 {
        Ok((Seq::empty(), pos))
    } else {
        match resources_at(buf, pos, (n - 1) as nat) {
            Ok((rs, e)) => match resource_at(buf, e) {
                Ok((x, e2)) => Ok((rs.push(x), e2)),
                Err(err) => Err(err),
            },
            Err(err) => Err(err),
        }
    }
}

/// Decodes a whole message: the header at offset 0, then as many records of
/// each section as the header counts. Bytes after the last record are ignored.
pub open spec fn message_from(buf: Seq<u8>) -> Result<MessageView, DecodeError> {
    match header_at(buf, 0) {
        Err(e) => Err(e),
        Ok(h) => match queries_at(buf, 12, h.qdcount as nat) {
            Err(e) => Err(e),
            Ok((qs, e1)) => match resources_at(buf, e1, h.ancount as nat) {
                Err(e) => Err(e),
                Ok((an, e2)) => match resources_at(buf, e2, h.nscount as nat) {
                    Err(e) => Err(e),
                    Ok((ns, e3)) => match resources_at(buf, e3, h.arcount as nat) {
                        Err(e) => Err(e),
                        Ok((ar, _)) => Ok(
                            MessageView {
                                header: h,
                                queries: qs,
                                resources: an,
                                authorities: ns,
                                additionals: ar,
                            },
                        ),
                    },
                },
            },
        },
    }
}

/// Questions on the wire, one after another.
pub open spec fn queries_bytes(qs: Seq<QueryView>) -> Seq<u8>
    decreases qs.len(),
{
    if qs.len() == 0 {
        Seq::empty()
    } else {
        queries_bytes(qs.drop_last()) + query_bytes(qs.last())
    }
}

/// Resource records on the wire, one after another.
pub open spec fn resources_bytes(rs: Seq<ResourceView>) -> Seq<u8>
    decreases rs.len(),
{
    if rs.len() == 0 {
        Seq::empty()
    } else {
        resources_bytes(rs.drop_last()) + resource_bytes(rs.last())
    }
}

/// The header of `m` with each count taken from the records that `m` holds.
pub open spec fn counted_header(m: MessageView) -> DNSHeader {
    DNSHeader {
        qdcount: m.queries.len() as u16,
        ancount: m.resources.len() as u16,
        nscount: m.authorities.len() as u16,
        arcount: m.additionals.len() as u16,
        ..m.header
    }
}

/// A message on the wire, its names uncompressed and its counts taken from
/// the records it holds.
pub open spec fn message_bytes(m: MessageView) -> Seq<u8> {
    header_bytes(counted_header(m)) + queries_bytes(m.queries) + resources_bytes(m.resources)
        + resources_bytes(m.authorities) + resources_bytes(m.additionals)
}

/// Every question's name may be written.
pub open spec fn queries_ok(qs: Seq<QueryView>) -> bool {
    forall|i: int| 0 <= i < qs.len() ==> crate::name::name_ok(#[trigger] qs[i].name)
}

/// Every record's name may be written and its data fits a 16-bit length.
pub open spec fn resources_ok(rs: Seq<ResourceView>) -> bool {
    forall|i: int|
        0 <= i < rs.len() ==> crate::name::name_ok(#[trigger] rs[i].name) && rs[i].rdata.len()
            <= 65535
}

/// Once reading a list of questions fails, reading more fails the same way.
proof fn lemma_queries_err(buf: Seq<u8>, pos: int, k: nat, n: nat)
    requires
        queries_at(buf, pos, k) is Err,
        k <= n,
    ensures
        queries_at(buf, pos, n) == queries_at(buf, pos, k),
    decreases n,
{
    if n > k {
        lemma_queries_err(buf, pos, k, (n - 1) as nat);
    }
}

/// Once reading a list of records fails, reading more fails the same way.
proof fn lemma_resources_err(buf: Seq<u8>, pos: int, k: nat, n: nat)
    requires
        resources_at(buf, pos, k) is Err,
        k <= n,
    ensures
        resources_at(buf, pos, n) == resources_at(buf, pos, k),
    decreases n,
{
    if n > k {
        lemma_resources_err(buf, pos, k, (n - 1) as nat);
    }
}

/// Questions written one after another read back as themselves.
pub proof fn lemma_queries_round_trip(qs: Seq<QueryView>, pre: Seq<u8>, suf: Seq<u8>)
    requires
        queries_ok(qs),
    ensures
        queries_at(pre + queries_bytes(qs) + suf, pre.len() as int, qs.len()) == Ok::<
            (Seq<QueryView>, int),
            DecodeError,
        >((qs, (pre.len() + queries_bytes(qs).len()) as int)),
    decreases qs.len(),
{
    if qs.len() == 0 {
        assert(qs =~= Seq::empty());
    } else {
        let init = qs.drop_last();
        let last = qs.last();
        let buf = pre + queries_bytes(qs) + suf;
        assert(buf =~= pre + queries_bytes(init) + (query_bytes(last) + suf));
        lemma_queries_round_trip(init, pre, query_bytes(last) + suf);
        assert(buf =~= (pre + queries_bytes(init)) + query_bytes(last) + suf);
        assert(crate::name::name_ok(qs[qs.len() - 1].name));
        lemma_query_round_trip(last, pre + queries_bytes(init), suf);
        assert(init.push(last) =~= qs);
    }
}

/// Resource records written one after another read back as themselves.
pub proof fn lemma_resources_round_trip(rs: Seq<ResourceView>, pre: Seq<u8>, suf: Seq<u8>)
    requires
        resources_ok(rs),
    ensures
        resources_at(pre + resources_bytes(rs) + suf, pre.len() as int, rs.len()) == Ok::<
            (Seq<ResourceView>, int),
            DecodeError,
        >((rs, (pre.len() + resources_bytes(rs).len()) as int)),
    decreases rs.len(),
{
    if rs.len() == 0 {
        assert(rs =~= Seq::empty());
    } else {
        let init = rs.drop_last();
        let last = rs.last();
        let buf = pre + resources_bytes(rs) + suf;
        assert(buf =~= pre + resources_bytes(init) + (resource_bytes(last) + suf));
        lemma_resources_round_trip(init, pre, resource_bytes(last) + suf);
        assert(buf =~= (pre + resources_bytes(init)) + resource_bytes(last) + suf);
        assert(crate::name::name_ok(rs[rs.len() - 1].name));
        lemma_resource_round_trip(last, pre + resources_bytes(init), suf);
        assert(init.push(last) =~= rs);
    }
}

/// Reads `n` questions one after another from the cursor.
fn read_queries(buf: &mut DataWrapper, n: u16) -> (r: Result<Vec<DNSQuery>, DecodeError>)
    requires
        old(buf).wf(),
    ensures
        final(buf).wf(),
        final(buf).bytes() == old(buf).bytes(),
        match queries_at(old(buf).bytes(), old(buf).at(), n as nat) {
            Ok((qs, e)) => r.is_ok() && queries_view(r.unwrap()@) == qs && final(buf).at() == e
                && forall|i: int| 0 <= i < qs.len() ==> (#[trigger] r.unwrap()@[i]).wf(),
            Err(e) => r.is_err() && r->Err_0 == e,
        },
        r.is_ok() ==> r.unwrap()@.len() == n,
{
    let ghost start = buf.at();
    let mut out: Vec<DNSQuery> = Vec::new();
    assert(queries_view(out@) =~= Seq::<QueryView>::empty());
    let mut i: u16 = 0;
    while i < n
        invariant
            buf.wf(),
            buf.bytes() == old(buf).bytes(),
            start == old(buf).at(),
            i <= n,
            queries_at(buf.bytes(), start, i as nat) == Ok::<(Seq<QueryView>, int), DecodeError>(
                (queries_view(out@), buf.at()),
            ),
            forall|j: int| 0 <= j < out@.len() ==> (#[trigger] out@[j]).wf(),
            out@.len() == i,
        decreases n - i,
    {
        match DNSQuery::deserialize(buf) {
            Ok(q) => {
                let ghost before = out@;
                out.push(q);
                assert(queries_view(out@) =~= queries_view(before).push(q@));
            },
            Err(e) => {
                proof {
                    lemma_queries_err(buf.bytes(), start, (i + 1) as nat, n as nat);
                }
                return Err(e);
            },
        }
        i = i + 1;
    }
    Ok(out)
}

/// Reads `n` resource records one after another from the cursor.
fn read_resources(buf: &mut DataWrapper, n: u16) -> (r: Result<Vec<DNSResource>, DecodeError>)
    requires
        old(buf).wf(),
    ensures
        final(buf).wf(),
        final(buf).bytes() == old(buf).bytes(),
        match resources_at(old(buf).bytes(), old(buf).at(), n as nat) {
            Ok((rs, e)) => r.is_ok() && resources_view(r.unwrap()@) == rs && final(buf).at() == e
                && forall|i: int| 0 <= i < rs.len() ==> (#[trigger] r.unwrap()@[i]).wf(),
            Err(e) => r.is_err() && r->Err_0 == e,
        },
        r.is_ok() ==> r.unwrap()@.len() == n,
{
    let ghost start = buf.at();
    let mut out: Vec<DNSResource> = Vec::new();
    assert(resources_view(out@) =~= Seq::<ResourceView>::empty());
    let mut i: u16 = 0;
    while i < n
        invariant
            buf.wf(),
            buf.bytes() == old(buf).bytes(),
            start == old(buf).at(),
            i <= n,
            resources_at(buf.bytes(), start, i as nat) == Ok::<
                (Seq<ResourceView>, int),
                DecodeError,
            >((resources_view(out@), buf.at())),
            forall|j: int| 0 <= j < out@.len() ==> (#[trigger] out@[j]).wf(),
            out@.len() == i,
        decreases n - i,
    {
        match DNSResource::deserialize(buf) {
            Ok(x) => {
                let ghost before = out@;
                out.push(x);
                assert(resources_view(out@) =~= resources_view(before).push(x@));
            },
            Err(e) => {
                proof {
                    lemma_resources_err(buf.bytes(), start, (i + 1) as nat, n as nat);
                }
                return Err(e);
            },
        }
        i = i + 1;
    }
    Ok(out)
}

/// Appends the questions on the wire.
fn write_queries(out: &mut Vec<u8>, qs: &Vec<DNSQuery>)
    ensures
        final(out)@ == old(out)@ + queries_bytes(queries_view(qs@)),
{
    let mut i: usize = 0;
    while i < qs.len()
        invariant
            i <= qs@.len(),
            out@ == old(out)@ + queries_bytes(queries_view(qs@.take(i as int))),
        decreases qs@.len() - i,
    {
        let mut b = qs[i].serialize();
        proof {
            let v = queries_view(qs@.take(i + 1));
            assert(v.drop_last() =~= queries_view(qs@.take(i as int)));
            assert(v.last() == qs@[i as int]@);
        }
        out.append(&mut b);
        i = i + 1;
        assert(out@ =~= old(out)@ + queries_bytes(queries_view(qs@.take(i as int))));
    }
    assert(qs@.take(i as int) =~= qs@);
}

/// Appends the resource records on the wire.
fn write_resources(out: &mut Vec<u8>, rs: &Vec<DNSResource>)
    ensures
        final(out)@ == old(out)@ + resources_bytes(resources_view(rs@)),
{
    let mut i: usize = 0;
    while i < rs.len()
        invariant
            i <= rs@.len(),
            out@ == old(out)@ + resources_bytes(resources_view(rs@.take(i as int))),
        decreases rs@.len() - i,
    {
        let mut b = rs[i].serialize();
        proof {
            let v = resources_view(rs@.take(i + 1));
            assert(v.drop_last() =~= resources_view(rs@.take(i as int)));
            assert(v.last() == rs@[i as int]@);
        }
        out.append(&mut b);
        i = i + 1;
        assert(out@ =~= old(out)@ + resources_bytes(resources_view(rs@.take(i as int))));
    }
    assert(rs@.take(i as int) =~= rs@);
}

impl DNSMessage {
    /// The header's fields fit their widths, every name may be written, and
    /// every record's data fits a 16-bit length.
    pub open spec fn wf(&self) -> bool {
        &&& self.header.wf()
        &&& forall|i: int| 0 <= i < self.queries@.len() ==> (#[trigger] self.queries@[i]).wf()
        &&& forall|i: int| 0 <= i < self.resources@.len() ==> (#[trigger] self.resources@[i]).wf()
        &&& forall|i: int|
            0 <= i < self.authorities@.len() ==> (#[trigger] self.authorities@[i]).wf()
        &&& forall|i: int|
            0 <= i < self.additionals@.len() ==> (#[trigger] self.additionals@[i]).wf()
    }

    /// Each section holds at most as many records as a 16-bit count can say.
    pub open spec fn counts_fit(&self) -> bool {
        &&& self.queries@.len() <= 65535
        &&& self.resources@.len() <= 65535
        &&& self.authorities@.len() <= 65535
        &&& self.additionals@.len() <= 65535
    }

    /// The header's counts are those of the records held.
    pub open spec fn counts_match(&self) -> bool {
        &&& self.header.qdcount == self.queries@.len()
        &&& self.header.ancount == self.resources@.len()
        &&& self.header.nscount == self.authorities@.len()
        &&& self.header.arcount == self.additionals@.len()
    }

    /// Decodes a whole datagram. What it gives may always be encoded again.
    pub fn deserialize(buffer: &[u8]) -> (r: Result<DNSMessage, DecodeError>)
        ensures
            match message_from(buffer@) {
                Ok(m) => r.is_ok() && r.unwrap()@ == m && r.unwrap().wf(),
                Err(e) => r.is_err() && r->Err_0 == e,
            },
            r.is_ok() ==> r.unwrap().counts_match() && r.unwrap().counts_fit(),
    {
        let mut data = DataWrapper::new(buffer);
        let header = match DNSHeader::deserialize(&mut data) {
            Ok(h) => h,
            Err(e) => return Err(e),
        };
        let queries = match read_queries(&mut data, header.qdcount) {
            Ok(v) => v,
            Err(e) => return Err(e),
        };
        let resources = match read_resources(&mut data, header.ancount) {
            Ok(v) => v,
            Err(e) => return Err(e),
        };
        let authorities = match read_resources(&mut data, header.nscount) {
            Ok(v) => v,
            Err(e) => return Err(e),
        };
        let additionals = match read_resources(&mut data, header.arcount) {
            Ok(v) => v,
            Err(e) => return Err(e),
        };
        Ok(DNSMessage { header, queries, resources, authorities, additionals })
    }

    /// The message on the wire. The counts written are those of the records
    /// held, whatever the header says; names are written uncompressed.
    pub fn serialize(&self) -> (r: Vec<u8>)
        requires
            self.counts_fit(),
        ensures
            r@ == message_bytes(self@),
    {
        let header = DNSHeader {
            qdcount: self.queries.len() as u16,
            ancount: self.resources.len() as u16,
            nscount: self.authorities.len() as u16,
            arcount: self.additionals.len() as u16,
            ..self.header
        };
        let mut out = header.serialize();
        write_queries(&mut out, &self.queries);
        write_resources(&mut out, &self.resources);
        write_resources(&mut out, &self.authorities);
        write_resources(&mut out, &self.additionals);
        out
    }

    /// Turns a decoded request into the frame of its response: marks it as a
    /// response and sets the status to NotImplemented where the opcode is not
    /// a standard query, else to NoErr. Records are left as they are.
    pub fn to_response(&mut self)
        ensures
            final(self).header == (DNSHeader {
                flags: crate::flags::Flags {
                    qr: true,
                    rcode: if old(self).header.flags.opcode == OPCODE::QUERY {
                        RCODE::NoErr
                    } else {
                        RCODE::NotImplemented
                    },
                    ..old(self).header.flags
                },
                ..old(self).header
            }),
            final(self).queries@ == old(self).queries@,
            final(self).resources@ == old(self).resources@,
            final(self).authorities@ == old(self).authorities@,
            final(self).additionals@ == old(self).additionals@,
    {
        self.header.to_response();
        let rcode = match self.header.flags.opcode {
            OPCODE::QUERY => RCODE::NoErr,
            _ => RCODE::NotImplemented,
        };
        self.header.set_rcode(rcode);
    }

    /// Appends an answer record.
    pub fn push_answer(&mut self, answer: DNSResource)
        ensures
            final(self).header == old(self).header,
            final(self).queries@ == old(self).queries@,
            final(self).resources@ == old(self).resources@.push(answer),
            final(self).authorities@ == old(self).authorities@,
            final(self).additionals@ == old(self).additionals@,
    {
        self.resources.push(answer);
    }
}

/// A message whose fields fit their widths reads back as itself, its counts
/// being those of the records it holds.
#[verifier::rlimit(80)]
pub proof fn lemma_message_round_trip(m: MessageView)
    requires
        m.header.wf(),
        queries_ok(m.queries),
        resources_ok(m.resources),
        resources_ok(m.authorities),
        resources_ok(m.additionals),
        m.queries.len() <= 65535,
        m.resources.len() <= 65535,
        m.authorities.len() <= 65535,
        m.additionals.len() <= 65535,
    ensures
        message_from(message_bytes(m)) == Ok::<MessageView, DecodeError>(
            MessageView { header: counted_header(m), ..m },
        ),
{
    let h = counted_header(m);
    let hb = header_bytes(h);
    let qb = queries_bytes(m.queries);
    let ab = resources_bytes(m.resources);
    let nb = resources_bytes(m.authorities);
    let rb = resources_bytes(m.additionals);
    let buf = message_bytes(m);
    assert(buf =~= Seq::<u8>::empty() + hb + (qb + ab + nb + rb));
    lemma_header_round_trip(h, Seq::empty(), qb + ab + nb + rb);
    assert(header_at(buf, 0) == Ok::<DNSHeader, DecodeError>(h));
    assert(hb.len() == 12);
    assert(buf =~= hb + qb + (ab + nb + rb));
    lemma_queries_round_trip(m.queries, hb, ab + nb + rb);
    let e1 = (hb.len() + qb.len()) as int;
    assert(queries_at(buf, 12, h.qdcount as nat) == Ok::<(Seq<QueryView>, int), DecodeError>(
        (m.queries, e1),
    ));
    assert(buf =~= (hb + qb) + ab + (nb + rb));
    lemma_resources_round_trip(m.resources, hb + qb, nb + rb);
    let e2 = e1 + ab.len();
    assert(resources_at(buf, e1, h.ancount as nat) == Ok::<(Seq<ResourceView>, int), DecodeError>(
        (m.resources, e2),
    ));
    assert(buf =~= (hb + qb + ab) + nb + rb);
    lemma_resources_round_trip(m.authorities, hb + qb + ab, rb);
    let e3 = e2 + nb.len();
    assert(resources_at(buf, e2, h.nscount as nat) == Ok::<(Seq<ResourceView>, int), DecodeError>(
        (m.authorities, e3),
    ));
    assert(buf =~= (hb + qb + ab + nb) + rb + Seq::<u8>::empty());
    lemma_resources_round_trip(m.additionals, hb + qb + ab + nb, Seq::empty());
    assert(resources_at(buf, e3, h.arcount as nat) is Ok);
    assert(resources_at(buf, e3, h.arcount as nat)->Ok_0.0 == m.additionals);
}

} // verus!
