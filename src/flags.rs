use vstd::arithmetic::power2::{lemma2_to64, pow2};
use vstd::prelude::*;

use crate::bits::{
    lemma_byte_pack_unpack, lemma_pack_bound, lemma_unpack_pack, masked, narrow, pack, pack_spec,
    unpack, unpack_spec, width_sum,
};
use crate::codes::{OPCODE, RCODE};
use crate::cursor::DataWrapper;
use crate::error::DecodeError;

verus! {

/// The two flag octets of the header, field by field.
/// First octet: qr(1) opcode(4) aa(1) tc(1) rd(1); second: ra(1) z(3) rcode(4).
#[derive(Debug, Clone, Copy, PartialEq, Eq, Structural)]
pub struct Flags {
    pub qr: bool,
    pub opcode: OPCODE,
    pub aa: bool,
    pub tc: bool,
    pub rd: bool,
    pub ra: bool,
    pub z: u8,
    pub rcode: RCODE,
}

/// A one-bit field as an integer.
pub open spec fn bit(b: bool) -> u8 {
    if b {
        1
    } else {
        0
    }
}

/// The widths of the first flag octet: qr, opcode, aa, tc, rd.
pub open spec fn first_layout() -> Seq<u8> {
    seq![1u8, 4, 1, 1, 1]
}

/// The widths of the second flag octet: ra, z, rcode.
pub open spec fn second_layout() -> Seq<u8> {
    seq![1u8, 3, 4]
}

/// The values of the first flag octet's fields, in order.
pub open spec fn first_fields(f: Flags) -> Seq<u8> {
    seq![bit(f.qr), f.opcode.code(), bit(f.aa), bit(f.tc), bit(f.rd)]
}

/// The values of the second flag octet's fields, in order.
pub open spec fn second_fields(f: Flags) -> Seq<u8> {
    seq![bit(f.ra), f.z, f.rcode.code()]
}

/// The fields that two flag octets hold.
#[verifier::opaque]
pub open spec fn flags_from(b0: u8, b1: u8) -> Flags {
    let x = unpack_spec(b0 as nat, first_layout());
    let y = unpack_spec(b1 as nat, second_layout());
    Flags {
        qr: x[0] == 1,
        opcode: OPCODE::from_code(x[1]),
        aa: x[2] == 1,
        tc: x[3] == 1,
        rd: x[4] == 1,
        ra: y[0] == 1,
        z: y[1],
        rcode: RCODE::from_code(y[2]),
    }
}

/// The two octets that hold the fields of `f`, each value masked to its width.
#[verifier::opaque]
pub open spec fn flag_bytes(f: Flags) -> (u8, u8) {
    (
        pack_spec(first_fields(f), first_layout()) as u8,
        pack_spec(second_fields(f), second_layout()) as u8,
    )
}

/// Facts on the two layouts: their widths add up to a byte.
proof fn lemma_layouts()
    ensures
        width_sum(first_layout()) == 8,
        width_sum(second_layout()) == 8,
        narrow(first_layout()),
        narrow(second_layout()),
        pow2(1) == 2,
        pow2(3) == 8,
        pow2(4) == 16,
        pow2(8) == 256,
{
    lemma2_to64();
    let a = first_layout();
    let b = second_layout();
    assert(a.drop_last() =~= seq![1u8, 4, 1, 1]);
    assert(a.drop_last().drop_last() =~= seq![1u8, 4, 1]);
    assert(a.drop_last().drop_last().drop_last() =~= seq![1u8, 4]);
    assert(a.drop_last().drop_last().drop_last().drop_last() =~= seq![1u8]);
    assert(a.drop_last().drop_last().drop_last().drop_last().drop_last() =~= Seq::<u8>::empty());
    assert(b.drop_last() =~= seq![1u8, 3]);
    assert(b.drop_last().drop_last() =~= seq![1u8]);
    assert(b.drop_last().drop_last().drop_last() =~= Seq::<u8>::empty());
    reveal_with_fuel(width_sum, 6);
}

/// Each field of an unpacked octet is below two to the power of its width.
proof fn lemma_fields_fit(b: u8)
    ensures
        unpack_spec(b as nat, first_layout()).len() == 5,
        unpack_spec(b as nat, second_layout()).len() == 3,
        unpack_spec(b as nat, first_layout())[0] < 2,
        unpack_spec(b as nat, first_layout())[1] < 16,
        unpack_spec(b as nat, first_layout())[2] < 2,
        unpack_spec(b as nat, first_layout())[3] < 2,
        unpack_spec(b as nat, first_layout())[4] < 2,
        unpack_spec(b as nat, second_layout())[0] < 2,
        unpack_spec(b as nat, second_layout())[1] < 8,
        unpack_spec(b as nat, second_layout())[2] < 16,
{
    lemma_layouts();
    let a = first_layout();
    let c = second_layout();
    let n = b as nat;
    let x = unpack_spec(n, a);
    let y = unpack_spec(n, c);
    assert(a.drop_last() =~= seq![1u8, 4, 1, 1]);
    assert(a.drop_last().drop_last() =~= seq![1u8, 4, 1]);
    assert(a.drop_last().drop_last().drop_last() =~= seq![1u8, 4]);
    assert(a.drop_last().drop_last().drop_last().drop_last() =~= seq![1u8]);
    assert(a.drop_last().drop_last().drop_last().drop_last().drop_last() =~= Seq::<u8>::empty());
    assert(c.drop_last() =~= seq![1u8, 3]);
    assert(c.drop_last().drop_last() =~= seq![1u8]);
    assert(c.drop_last().drop_last().drop_last() =~= Seq::<u8>::empty());
    reveal_with_fuel(unpack_spec, 6);
    let n1 = n / 2;
    let n2 = n1 / 2;
    let n3 = n2 / 2;
    let n4 = n3 / 16;
    assert(x =~= seq![(n4 % 2) as u8, (n3 % 16) as u8, (n2 % 2) as u8, (n1 % 2) as u8, (n % 2) as u8]);
    let m1 = n / 16;
    let m2 = m1 / 8;
    assert(y =~= seq![(m2 % 2) as u8, (m1 % 8) as u8, (n % 16) as u8]);
}

/// Every two flag octets are written back as they were read.
pub proof fn lemma_flags_pack_unpack(b0: u8, b1: u8)
    ensures
        flag_bytes(flags_from(b0, b1)) == (b0, b1),
{
    reveal(flags_from);
    reveal(flag_bytes);
    lemma_layouts();
    lemma_fields_fit(b0);
    lemma_fields_fit(b1);
    let f = flags_from(b0, b1);
    assert(first_fields(f) =~= unpack_spec(b0 as nat, first_layout()));
    assert(second_fields(f) =~= unpack_spec(b1 as nat, second_layout()));
    lemma_byte_pack_unpack(b0, first_layout());
    lemma_byte_pack_unpack(b1, second_layout());
}

/// Fields whose values fit their widths are read back as they were written.
pub proof fn lemma_flags_unpack_pack(f: Flags)
    requires
        f.wf(),
    ensures
        flags_from(flag_bytes(f).0, flag_bytes(f).1) == f,
{
    reveal(flags_from);
    reveal(flag_bytes);
    lemma_layouts();
    let v = first_fields(f);
    let w = second_fields(f);
    lemma_pack_bound(v, first_layout());
    lemma_pack_bound(w, second_layout());
    lemma_unpack_pack(v, first_layout());
    lemma_unpack_pack(w, second_layout());
    let mv = masked(v, first_layout());
    let mw = masked(w, second_layout());
    let fl = first_layout();
    assert(fl[0] == 1 && fl[1] == 4 && fl[2] == 1 && fl[3] == 1 && fl[4] == 1);
    assert(v[1] == f.opcode.code() && f.opcode.code() < 16);
    assert(mv[0] == (v[0] as nat % 2) as u8);
    assert(mv[0] == v[0]);
    assert(mv[1] == (f.opcode.code() as nat % 16) as u8);
    assert(mv[1] == v[1]);
    assert(mv[2] == (v[2] as nat % 2) as u8);
    assert(mv[2] == v[2]);
    assert(mv[3] == (v[3] as nat % 2) as u8);
    assert(mv[3] == v[3]);
    assert(mv[4] == (v[4] as nat % 2) as u8);
    assert(mv[4] == v[4]);
    assert(second_layout()[0] == 1 && second_layout()[1] == 3 && second_layout()[2] == 4);
    assert(w[1] == f.z && f.z < 8);
    assert(w[2] == f.rcode.code() && f.rcode.code() < 16);
    assert(mw[0] == w[0]);
    assert(mw[1] == (f.z as nat % 8) as u8);
    assert(mw[1] == w[1]);
    assert(mw[2] == (f.rcode.code() as nat % 16) as u8);
    assert(mw[2] == w[2]);
    assert(mv =~= v);
    assert(mw =~= w);
}

/// The fields that any two flag octets hold fit their widths.
pub proof fn lemma_flags_from_wf(b0: u8, b1: u8)
    ensures
        flags_from(b0, b1).wf(),
{
    reveal(flags_from);
    lemma_fields_fit(b0);
    lemma_fields_fit(b1);
}

/// Five values as a vector.
fn vec_of_five(a: u8, b: u8, c: u8, d: u8, e: u8) -> (r: Vec<u8>)
    ensures
        r@ == seq![a, b, c, d, e],
{
    let mut out: Vec<u8> = Vec::new();
    out.push(a);
    out.push(b);
    out.push(c);
    out.push(d);
    out.push(e);
    assert(out@ =~= seq![a, b, c, d, e]);
    out
}

/// Three values as a vector.
fn vec_of_three(a: u8, b: u8, c: u8) -> (r: Vec<u8>)
    ensures
        r@ == seq![a, b, c],
{
    let mut out: Vec<u8> = Vec::new();
    out.push(a);
    out.push(b);
    out.push(c);
    assert(out@ =~= seq![a, b, c]);
    out
}

impl Flags {
    /// Every field fits its width, and the codes are in their canonical form.
    pub open spec fn wf(&self) -> bool {
        &&& self.opcode.wf()
        &&& self.z < 8
        &&& self.rcode.wf()
    }

    /// The fields that two flag octets hold.
    pub fn unpack(b0: u8, b1: u8) -> (r: Flags)
        ensures
            r == flags_from(b0, b1),
            r.wf(),
    {
        proof {
            reveal(flags_from);
            lemma_layouts();
            lemma_flags_from_wf(b0, b1);
            lemma_fields_fit(b0);
            lemma_fields_fit(b1);
        }
        let x = unpack(b0, &vec_of_five(1, 4, 1, 1, 1));
        let y = unpack(b1, &vec_of_three(1, 3, 4));
        Flags {
            qr: x[0] == 1,
            opcode: OPCODE::deserialize(x[1]),
            aa: x[2] == 1,
            tc: x[3] == 1,
            rd: x[4] == 1,
            ra: y[0] == 1,
            z: y[1],
            rcode: RCODE::deserialize(y[2]),
        }
    }

    /// The two octets that hold these fields; values wider than their field
    /// are masked to its width.
    pub fn pack(&self) -> (r: (u8, u8))
        ensures
            r == flag_bytes(*self),
    {
        proof {
            reveal(flag_bytes);
            lemma_layouts();
        }
        let qr: u8 = if self.qr { 1 } else { 0 };
        let aa: u8 = if self.aa { 1 } else { 0 };
        let tc: u8 = if self.tc { 1 } else { 0 };
        let rd: u8 = if self.rd { 1 } else { 0 };
        let ra: u8 = if self.ra { 1 } else { 0 };
        let first = pack(
            &vec_of_five(qr, self.opcode.serialize(), aa, tc, rd),
            &vec_of_five(1, 4, 1, 1, 1),
        );
        let second = pack(
            &vec_of_three(ra, self.z, self.rcode.serialize()),
            &vec_of_three(1, 3, 4),
        );
        (first, second)
    }

    /// Reads the two flag octets under the cursor.
    pub fn deserialize(buf: &mut DataWrapper) -> (r: Result<Flags, DecodeError>)
        requires
            old(buf).wf(),
        ensures
            final(buf).wf(),
            final(buf).bytes() == old(buf).bytes(),
            old(buf).at() + 2 <= old(buf).bytes().len() ==> r == Ok::<Flags, DecodeError>(
                flags_from(old(buf).bytes()[old(buf).at()], old(buf).bytes()[old(buf).at() + 1]),
            ) && final(buf).at() == old(buf).at() + 2,
            old(buf).at() + 2 > old(buf).bytes().len() ==> r == Err::<Flags, DecodeError>(
                DecodeError::Truncated,
            ) && final(buf).at() == old(buf).at(),
    {
        if buf.len() - buf.pos() < 2 {
            return Err(DecodeError::Truncated);
        }
        let b0 = match buf.get_u8() {
            Ok(b) => b,
            Err(e) => return Err(e),
        };
        let b1 = match buf.get_u8() {
            Ok(b) => b,
            Err(e) => return Err(e),
        };
        Ok(Flags::unpack(b0, b1))
    }

    /// The two flag octets.
    pub fn serialize(&self) -> (r: Vec<u8>)
        ensures
            r@ == seq![flag_bytes(*self).0, flag_bytes(*self).1],
    {
        let (first, second) = self.pack();
        let mut out: Vec<u8> = Vec::new();
        out.push(first);
        out.push(second);
        out
    }
}

} // verus!
