use vstd::prelude::*;

use crate::cursor::DataWrapper;
use crate::error::DecodeError;

verus! {

/// How many compression pointers one name may follow.
pub const MAX_JUMPS: usize = 10;

/// The most bytes an encoded name may take, length octets and terminator included.
pub const MAX_NAME_LEN: usize = 255;

/// The longest label.
pub const MAX_LABEL_LEN: usize = 63;

/// A domain name: its labels in order, the root label left implicit.
/// Labels are byte strings, not necessarily text.
#[derive(Debug, Clone)]
pub struct DNSLabel {
    pub parts: Vec<Vec<u8>>,
}

impl View for DNSLabel {
    type V = Seq<Seq<u8>>;

    open spec fn view(&self) -> Seq<Seq<u8>> {
        self.parts@.map_values(|p: Vec<u8>| p@)
    }
}

/// A label may be written on the wire: 1 to 63 bytes.
pub open spec fn label_ok(x: Seq<u8>) -> bool {
    1 <= x.len() <= MAX_LABEL_LEN
}

/// One label on the wire: its length octet, then its bytes.
pub open spec fn label_bytes(x: Seq<u8>) -> Seq<u8> {
    seq![x.len() as u8] + x
}

/// The labels of a name on the wire, without the terminator.
pub open spec fn labels_bytes(l: Seq<Seq<u8>>) -> Seq<u8>
    decreases l.len(),
{
    if l.len() == 0 {
        Seq::empty()
    } else {
        labels_bytes(l.drop_last()) + label_bytes(l.last())
    }
}

/// A name on the wire, uncompressed: its labels, then the zero octet.
pub open spec fn name_bytes(l: Seq<Seq<u8>>) -> Seq<u8> {
    labels_bytes(l) + seq![0u8]
}

/// Every label may be written, and the whole name takes at most 255 bytes.
pub open spec fn name_ok(l: Seq<Seq<u8>>) -> bool {
    &&& forall|i: int| 0 <= i < l.len() ==> label_ok(#[trigger] l[i])
    &&& name_bytes(l).len() <= MAX_NAME_LEN
}

/// The offset that a compression pointer at `pos` names: the low 14 bits of
/// the two octets.
pub open spec fn pointer_target(buf: Seq<u8>, pos: int) -> int {
    (buf[pos] as int - 192) * 256 + buf[pos + 1] as int
}

/// Reads the name that starts at `pos`, with at most `jumps` compression
/// pointers left to follow. On success: the labels, and the offset just past
/// the name as it stands at `pos` (past the terminator, or past the two
/// octets of the pointer that ends it).
pub open spec fn read_name(buf: Seq<u8>, pos: int, jumps: nat) -> Result<
    (Seq<Seq<u8>>, int),
    DecodeError,
>
    decreases jumps, buf.len() - pos,
{
    if pos < 0 || pos >= buf.len() {
        Err(DecodeError::Truncated)
    } else {
        let b = buf[pos];
        if b == 0 {
            Ok((Seq::empty(), pos + 1))
        } else if b >= 192 {
            if pos + 1 >= buf.len() {
                Err(DecodeError::Truncated)
            } else if jumps == 0 {
                Err(DecodeError::PointerLoopExceeded)
            } else if pointer_target(buf, pos) >= buf.len() {
                Err(DecodeError::PointerOutOfBounds)
            } else {
                match read_name(buf, pointer_target(buf, pos), (jumps - 1) as nat) {
                    Ok((l, _)) => Ok((l, pos + 2)),
                    Err(e) => Err(e),
                }
            }
        } else if b > 63 || pos + 1 + b > buf.len() {
            Err(DecodeError::InvalidLabelLength)
        } else {
            match read_name(buf, pos + 1 + b, jumps) {
                Ok((l, e)) => Ok((seq![buf.subrange(pos + 1, pos + 1 + b)] + l, e)),
                Err(e) => Err(e),
            }
        }
    }
}

/// Decodes the name at `pos` with the full jump budget, and refuses one that
/// would take more than 255 bytes written out.
pub open spec fn decode_name(buf: Seq<u8>, pos: int) -> Result<(Seq<Seq<u8>>, int), DecodeError> {
    match read_name(buf, pos, MAX_JUMPS as nat) {
        Ok((l, e)) => if name_bytes(l).len() > MAX_NAME_LEN {
            Err(DecodeError::NameTooLong)
        } else {
            Ok((l, e))
        },
        Err(e) => Err(e),
    }
}

/// `r` and the labels appended to a name are what `spec_r` gives.
pub open spec fn read_as(
    before: Seq<Seq<u8>>,
    after: Seq<Seq<u8>>,
    r: Result<usize, DecodeError>,
    spec_r: Result<(Seq<Seq<u8>>, int), DecodeError>,
) -> bool {
    match spec_r {
        Ok((l, e)) => r.is_ok() && r.unwrap() == e && after == before + l,
        Err(err) => r == Err::<usize, DecodeError>(err),
    }
}

/// Whether two octets start with a compression pointer: the two high bits of
/// the first are set.
pub fn is_pointer(data: &[u8; 2]) -> (r: bool)
    ensures
        r == (data@[0] >= 192),
{
    let b = data[0];
    assert((b & 0xC0 == 0xC0) == (b >= 192)) by (bit_vector);
    b & 0xC0 == 0xC0
}

/// Written out front first: a label, then the rest.
pub proof fn lemma_labels_bytes_front(l: Seq<Seq<u8>>)
    requires
        l.len() > 0,
    ensures
        labels_bytes(l) == label_bytes(l[0]) + labels_bytes(l.drop_first()),
    decreases l.len(),
{
    if l.len() == 1 {
        assert(l.drop_last() =~= Seq::<Seq<u8>>::empty());
        assert(l.drop_first() =~= Seq::<Seq<u8>>::empty());
        assert(labels_bytes(l) =~= label_bytes(l[0]) + labels_bytes(l.drop_first()));
    } else {
        lemma_labels_bytes_front(l.drop_last());
        assert(l.drop_last().drop_first() =~= l.drop_first().drop_last());
        assert(l.drop_last()[0] == l[0]);
        assert(l.drop_first().last() == l.last());
        assert(labels_bytes(l) =~= label_bytes(l[0]) + labels_bytes(l.drop_first()));
    }
}

/// A name written out uncompressed reads back as itself, wherever it stands
/// in a buffer and whatever follows it.
pub proof fn lemma_name_round_trip(l: Seq<Seq<u8>>, pre: Seq<u8>, suf: Seq<u8>, jumps: nat)
    requires
        forall|i: int| 0 <= i < l.len() ==> label_ok(#[trigger] l[i]),
    ensures
        read_name(pre + name_bytes(l) + suf, pre.len() as int, jumps) == Ok::<
            (Seq<Seq<u8>>, int),
            DecodeError,
        >((l, (pre.len() + name_bytes(l).len()) as int)),
    decreases l.len(),
{
    let buf = pre + name_bytes(l) + suf;
    let p = pre.len() as int;
    if l.len() == 0 {
        assert(buf[p] == 0);
        assert(l =~= Seq::<Seq<u8>>::empty());
    } else {
        lemma_labels_bytes_front(l);
        let x = l[0];
        let rest = l.drop_first();
        assert(label_ok(x));
        let pre2 = pre + label_bytes(x);
        assert(buf =~= pre2 + name_bytes(rest) + suf);
        assert(buf[p] == x.len() as u8);
        assert(buf.subrange(p + 1, p + 1 + x.len()) =~= x);
        assert forall|i: int| 0 <= i < rest.len() implies label_ok(#[trigger] rest[i]) by {
            assert(rest[i] == l[i + 1]);
        }
        lemma_name_round_trip(rest, pre2, suf, jumps);
        assert(seq![x] + rest =~= l);
    }
}

/// Every label that reading gives may be written, and the offset past the
/// name lies within the buffer.
pub proof fn lemma_read_name_ok(buf: Seq<u8>, pos: int, jumps: nat)
    requires
        read_name(buf, pos, jumps) is Ok,
    ensures
        forall|i: int|
            0 <= i < read_name(buf, pos, jumps)->Ok_0.0.len() ==> label_ok(
                #[trigger] read_name(buf, pos, jumps)->Ok_0.0[i],
            ),
        pos < read_name(buf, pos, jumps)->Ok_0.1 <= buf.len(),
    decreases jumps, buf.len() - pos,
{
    let b = buf[pos];
    if b == 0 {
    } else if b >= 192 {
        lemma_read_name_ok(buf, pointer_target(buf, pos), (jumps - 1) as nat);
    } else {
        let next = pos + 1 + b;
        lemma_read_name_ok(buf, next, jumps);
        let l = read_name(buf, pos, jumps)->Ok_0.0;
        let rest = read_name(buf, next, jumps)->Ok_0.0;
        assert forall|i: int| 0 <= i < l.len() implies label_ok(#[trigger] l[i]) by {
            if i > 0 {
                assert(l[i] == rest[i - 1]);
            }
        }
    }
}

/// A name read with some jump budget reads the same with a larger one.
pub proof fn lemma_read_name_more_jumps(buf: Seq<u8>, pos: int, jumps: nat, more: nat)
    requires
        read_name(buf, pos, jumps) is Ok,
        jumps <= more,
    ensures
        read_name(buf, pos, more) == read_name(buf, pos, jumps),
    decreases jumps, buf.len() - pos,
{
    let b = buf[pos];
    if b == 0 {
    } else if b >= 192 {
        lemma_read_name_more_jumps(
            buf,
            pointer_target(buf, pos),
            (jumps - 1) as nat,
            (more - 1) as nat,
        );
    } else {
        lemma_read_name_more_jumps(buf, pos + 1 + b, jumps, more);
    }
}

/// A compression pointer to a name written out without pointers decodes to
/// the labels of that name, and the name that holds the pointer ends just
/// past its two octets.
pub proof fn lemma_pointer_to_literal(buf: Seq<u8>, pos: int)
    requires
        0 <= pos,
        pos + 1 < buf.len(),
        buf[pos] >= 192,
        pointer_target(buf, pos) < buf.len(),
        read_name(buf, pointer_target(buf, pos), 0) is Ok,
    ensures
        decode_name(buf, pos) == match decode_name(buf, pointer_target(buf, pos)) {
            Ok((l, _)) => Ok((l, pos + 2)),
            Err(e) => Err::<(Seq<Seq<u8>>, int), DecodeError>(e),
        },
{
    let t = pointer_target(buf, pos);
    lemma_read_name_more_jumps(buf, t, 0, (MAX_JUMPS - 1) as nat);
    lemma_read_name_more_jumps(buf, t, 0, MAX_JUMPS as nat);
}

/// A name written out uncompressed at offset `s`, and a compression pointer
/// at a later offset `p` whose two octets name `s`: decoding at `p` gives
/// the same labels as decoding at `s`, and ends just past the pointer. The
/// pointer's 14 bits can only name offsets below 16384.
pub proof fn lemma_compressed_name(buf: Seq<u8>, l: Seq<Seq<u8>>, s: int, p: int)
    requires
        name_ok(l),
        0 <= s < 16384,
        s + name_bytes(l).len() <= buf.len(),
        buf.subrange(s, s + name_bytes(l).len()) == name_bytes(l),
        s < p,
        p + 1 < buf.len(),
        buf[p] == 192 + s / 256,
        buf[p + 1] == s % 256,
    ensures
        decode_name(buf, s) == Ok::<(Seq<Seq<u8>>, int), DecodeError>(
            (l, s + name_bytes(l).len()),
        ),
        decode_name(buf, p) == Ok::<(Seq<Seq<u8>>, int), DecodeError>((l, p + 2)),
{
    let e = s + name_bytes(l).len();
    let pre = buf.subrange(0, s);
    let suf = buf.subrange(e, buf.len() as int);
    assert(buf =~= pre + name_bytes(l) + suf);
    lemma_name_round_trip(l, pre, suf, 0);
    lemma_name_round_trip(l, pre, suf, MAX_JUMPS as nat);
    assert(pointer_target(buf, p) == s);
    lemma_pointer_to_literal(buf, p);
}

/// Reading at a compression pointer that names its own offset fails with
/// `PointerLoopExceeded`, whatever the jump budget.
proof fn lemma_self_pointer_jumps(buf: Seq<u8>, pos: int, jumps: nat)
    requires
        0 <= pos,
        pos + 1 < buf.len(),
        buf[pos] >= 192,
        pointer_target(buf, pos) == pos,
    ensures
        read_name(buf, pos, jumps) == Err::<(Seq<Seq<u8>>, int), DecodeError>(
            DecodeError::PointerLoopExceeded,
        ),
    decreases jumps,
{
    if jumps > 0 {
        lemma_self_pointer_jumps(buf, pos, (jumps - 1) as nat);
    }
}

/// A compression pointer at offset `pos` that points to `pos` itself is
/// refused with `PointerLoopExceeded`: decoding ends rather than loops.
pub proof fn lemma_self_pointer(buf: Seq<u8>, pos: int)
    requires
        0 <= pos,
        pos + 1 < buf.len(),
        buf[pos] >= 192,
        pointer_target(buf, pos) == pos,
    ensures
        decode_name(buf, pos) == Err::<(Seq<Seq<u8>>, int), DecodeError>(
            DecodeError::PointerLoopExceeded,
        ),
{
    lemma_self_pointer_jumps(buf, pos, MAX_JUMPS as nat);
}

impl DNSLabel {
    /// The name may be written on the wire.
    pub open spec fn wf(&self) -> bool {
        name_ok(self@)
    }

    /// A name from its labels, refused where a label is empty or longer than
    /// 63 bytes, or where the whole would take more than 255 bytes.
    pub fn new(parts: Vec<Vec<u8>>) -> (r: Result<DNSLabel, DecodeError>)
        ensures
            (exists|i: int| 0 <= i < parts@.len() && !label_ok(#[trigger] parts@[i]@)) ==> r
                == Err::<DNSLabel, DecodeError>(DecodeError::InvalidLabelLength),
            (forall|i: int| 0 <= i < parts@.len() ==> label_ok(#[trigger] parts@[i]@)) ==> {
                let l = parts@.map_values(|p: Vec<u8>| p@);
                &&& name_bytes(l).len() > MAX_NAME_LEN ==> r == Err::<DNSLabel, DecodeError>(
                    DecodeError::NameTooLong,
                )
                &&& name_bytes(l).len() <= MAX_NAME_LEN ==> r.is_ok() && r.unwrap()@ == l
            },
            r.is_ok() ==> r.unwrap().wf(),
    {
        let mut i: usize = 0;
        while i < parts.len()
            invariant
                i <= parts@.len(),
                forall|j: int| 0 <= j < i ==> label_ok(#[trigger] parts@[j]@),
            decreases parts@.len() - i,
        {
            let n = parts[i].len();
            if n == 0 || n > MAX_LABEL_LEN {
                assert(!label_ok(parts@[i as int]@));
                return Err(DecodeError::InvalidLabelLength);
            }
            i = i + 1;
        }
        let name = DNSLabel { parts };
        if name.encoded_len() > MAX_NAME_LEN {
            return Err(DecodeError::NameTooLong);
        }
        Ok(name)
    }

    /// The length of the name written out, or 256 where that is more than 255.
    pub fn encoded_len(&self) -> (r: usize)
        ensures
            r == if name_bytes(self@).len() > MAX_NAME_LEN {
                MAX_NAME_LEN as int + 1
            } else {
                name_bytes(self@).len() as int
            },
    {
        let cap: usize = MAX_NAME_LEN + 1;
        let mut acc: usize = 0;
        let mut i: usize = 0;
        while i < self.parts.len()
            invariant
                i <= self@.len(),
                self@.len() == self.parts@.len(),
                cap == 256,
                acc == if labels_bytes(self@.take(i as int)).len() >= cap {
                    cap as int
                } else {
                    labels_bytes(self@.take(i as int)).len() as int
                },
            decreases self.parts@.len() - i,
        {
            let n = self.parts[i].len();
            assert(self@.take(i + 1).drop_last() =~= self@.take(i as int));
            assert(self@.take(i + 1).last() == self@[i as int]);
            if acc >= cap || n >= cap - acc - 1 {
                acc = cap;
            } else {
                acc = acc + n + 1;
            }
            i = i + 1;
        }
        assert(self@.take(i as int) =~= self@);
        if acc >= cap - 1 {
            cap
        } else {
            acc + 1
        }
    }

    /// The name on the wire, uncompressed.
    pub fn serialize(&self) -> (r: Vec<u8>)
        ensures
            r@ == name_bytes(self@),
    {
        let mut out: Vec<u8> = Vec::new();
        let mut i: usize = 0;
        while i < self.parts.len()
            invariant
                i <= self@.len(),
                self@.len() == self.parts@.len(),
                out@ == labels_bytes(self@.take(i as int)),
            decreases self.parts@.len() - i,
        {
            let part = &self.parts[i];
            assert(self@.take(i + 1).drop_last() =~= self@.take(i as int));
            assert(self@.take(i + 1).last() == part@);
            out.push(part.len() as u8);
            let mut j: usize = 0;
            while j < part.len()
                invariant
                    j <= part@.len(),
                    out@ == labels_bytes(self@.take(i as int)) + seq![part@.len() as u8]
                        + part@.take(j as int),
                decreases part@.len() - j,
            {
                out.push(part[j]);
                j = j + 1;
                assert(out@ =~= labels_bytes(self@.take(i as int)) + seq![part@.len() as u8]
                    + part@.take(j as int));
            }
            assert(part@.take(j as int) =~= part@);
            assert(out@ =~= labels_bytes(self@.take(i + 1)));
            i = i + 1;
        }
        assert(self@.take(i as int) =~= self@);
        out.push(0);
        out
    }

    /// Appends one label.
    fn push_label(&mut self, x: Vec<u8>)
        ensures
            final(self)@ == old(self)@.push(x@),
    {
        self.parts.push(x);
        assert(self@ =~= old(self)@.push(x@));
    }
}

impl<'a> DataWrapper<'a> {
    /// Decodes the name under the cursor, following compression pointers,
    /// and moves the cursor past the name as it stands there.
    pub fn follow_label(&mut self) -> (r: Result<DNSLabel, DecodeError>)
        requires
            old(self).wf(),
        ensures
            final(self).wf(),
            final(self).bytes() == old(self).bytes(),
            match decode_name(old(self).bytes(), old(self).at()) {
                Ok((l, e)) => r.is_ok() && r.unwrap()@ == l && r.unwrap().wf() && final(self).at() == e,
                Err(e) => r.is_err() && r->Err_0 == e,
            },
    {
        let mut dns_label = DNSLabel { parts: Vec::new() };
        assert(dns_label@ =~= Seq::<Seq<u8>>::empty());
        let start = self.pos();
        let end = match self.read_labels(start, MAX_JUMPS, &mut dns_label) {
            Ok(e) => e,
            Err(e) => return Err(e),
        };
        proof {
            assert(dns_label@ =~= read_name(self.bytes(), start as int, MAX_JUMPS as nat)->Ok_0.0);
            lemma_read_name_ok(self.bytes(), start as int, MAX_JUMPS as nat);
        }
        if dns_label.encoded_len() > MAX_NAME_LEN {
            return Err(DecodeError::NameTooLong);
        }
        let _ = self.seek(end);
        Ok(dns_label)
    }

    /// Reads the labels of the name at `pos`, appending them to `dns_label`,
    /// and follows a compression pointer where one ends the name.
    fn read_labels(&self, pos: usize, jumps: usize, dns_label: &mut DNSLabel) -> (r: Result<
        usize,
        DecodeError,
    >)
        ensures
            read_as(old(dns_label)@, final(dns_label)@, r, read_name(self.bytes(), pos as int, jumps as nat)),
            r.is_ok() ==> r.unwrap() <= self.bytes().len(),
        decreases jumps, self.bytes().len() - pos, 1nat,
    {
        let len = self.len();
        if pos >= len {
            return Err(DecodeError::Truncated);
        }
        let b = self.byte_at(pos);
        if b == 0 {
            return Ok(pos + 1);
        }
        if len - pos >= 2 && is_pointer(&[b, self.byte_at(pos + 1)]) {
            return self.follow_pointer(pos, jumps, dns_label);
        }
        if b >= 192 {
            return Err(DecodeError::Truncated);
        }
        if b > 63 || len - pos - 1 < b as usize {
            return Err(DecodeError::InvalidLabelLength);
        }
        let start = pos + 1;
        let stop = start + b as usize;
        let mut part: Vec<u8> = Vec::new();
        let mut i = start;
        while i < stop
            invariant
                start <= i <= stop,
                stop <= len,
                len == self.bytes().len(),
                part@ == self.bytes().subrange(start as int, i as int),
            decreases stop - i,
        {
            part.push(self.byte_at(i));
            i = i + 1;
        }
        dns_label.push_label(part);
        let r = self.read_labels(stop, jumps, dns_label);
        proof {
            if r.is_ok() {
                assert(final(dns_label)@ =~= old(dns_label)@ + (seq![self.bytes().subrange(start as int, stop as int)] + read_name(self.bytes(), stop as int, jumps as nat)->Ok_0.0));
            }
        }
        r
    }

    /// Follows the compression pointer at `pos`: reads the name at the
    /// offset it names with one jump fewer, appending its labels to
    /// `dns_label`, and answers the offset just past the pointer.
    pub fn follow_pointer(&self, pos: usize, jumps: usize, dns_label: &mut DNSLabel) -> (r: Result<
        usize,
        DecodeError,
    >)
        requires
            pos + 1 < self.bytes().len(),
            self.bytes()[pos as int] >= 192,
        ensures
            read_as(old(dns_label)@, final(dns_label)@, r, read_name(self.bytes(), pos as int, jumps as nat)),
            r.is_ok() ==> r.unwrap() <= self.bytes().len(),
        decreases jumps, self.bytes().len() - pos, 0nat,
    {
        let len = self.len();
        if jumps == 0 {
            return Err(DecodeError::PointerLoopExceeded);
        }
        let hi = self.byte_at(pos);
        let lo = self.byte_at(pos + 1);
        let target = (hi - 192) as usize * 256 + lo as usize;
        if target >= len {
            return Err(DecodeError::PointerOutOfBounds);
        }
        match self.read_labels(target, jumps - 1, dns_label) {
            Ok(_) => Ok(pos + 2),
            Err(e) => Err(e),
        }
    }
}

} // verus!
