use vstd::arithmetic::div_mod::{lemma_fundamental_div_mod_converse, lemma_mod_breakdown};
use vstd::arithmetic::power2::{lemma2_to64, lemma_pow2_adds, lemma_pow2_pos, lemma_pow2_unfold, pow2};
use vstd::prelude::*;

verus! {

/// The total width of a list of bit fields.
pub open spec fn width_sum(widths: Seq<u8>) -> nat
    decreases widths.len(),
{
    if widths.len() == 0 {
        0
    } else {
        width_sum(widths.drop_last()) + widths.last() as nat
    }
}

/// Bit fields packed into one integer, the first field in the high bits,
/// each value masked to its width.
pub open spec fn pack_spec(values: Seq<u8>, widths: Seq<u8>) -> nat
    decreases widths.len(),
{
    if widths.len() == 0 {
        0
    } else {
        pack_spec(values.drop_last(), widths.drop_last()) * pow2(widths.last() as nat) + (
        values.last() as nat % pow2(widths.last() as nat))
    }
}

/// The bit fields of `b` with the given widths, the first from the high bits.
pub open spec fn unpack_spec(b: nat, widths: Seq<u8>) -> Seq<u8>
    decreases widths.len(),
{
    if widths.len() == 0 {
        Seq::empty()
    } else {
        unpack_spec(b / pow2(widths.last() as nat), widths.drop_last()).push(
            (b % pow2(widths.last() as nat)) as u8,
        )
    }
}

/// Each value masked to the width of its field.
pub open spec fn masked(values: Seq<u8>, widths: Seq<u8>) -> Seq<u8> {
    Seq::new(values.len(), |i: int| (values[i] as nat % pow2(widths[i] as nat)) as u8)
}

/// No field is wider than a byte.
pub open spec fn narrow(widths: Seq<u8>) -> bool {
    forall|i: int| 0 <= i < widths.len() ==> #[trigger] widths[i] <= 8
}

/// Packed fields take no more bits than their widths add up to.
pub proof fn lemma_pack_bound(values: Seq<u8>, widths: Seq<u8>)
    requires
        values.len() == widths.len(),
    ensures
        pack_spec(values, widths) < pow2(width_sum(widths)),
    decreases widths.len(),
{
    lemma_pow2_pos(width_sum(widths));
    if widths.len() > 0 {
        let w = widths.last() as nat;
        let s = width_sum(widths.drop_last());
        let p = pack_spec(values.drop_last(), widths.drop_last());
        lemma_pack_bound(values.drop_last(), widths.drop_last());
        lemma_pow2_pos(w);
        lemma_pow2_adds(s, w);
        let r = values.last() as nat % pow2(w);
        assert(r < pow2(w));
        assert((p + 1) * pow2(w) <= pow2(s) * pow2(w)) by (nonlinear_arith)
            requires
                p + 1 <= pow2(s),
        ;
        assert(p * pow2(w) + r < (p + 1) * pow2(w)) by (nonlinear_arith)
            requires
                r < pow2(w),
        ;
    }
}

/// Packing the fields of `b` gives back `b`, but for the bits above the total
/// width.
pub proof fn lemma_pack_unpack(b: nat, widths: Seq<u8>)
    requires
        narrow(widths),
    ensures
        pack_spec(unpack_spec(b, widths), widths) == b % pow2(width_sum(widths)),
    decreases widths.len(),
{
    if widths.len() == 0 {
        assert(pow2(0) == 1) by {
            lemma2_to64();
        }
    } else {
        let w = widths.last() as nat;
        let init = widths.drop_last();
        let s = width_sum(init);
        let u = unpack_spec(b, widths);
        lemma_pow2_pos(w);
        lemma_pow2_pos(s);
        assert(forall|i: int| 0 <= i < init.len() ==> #[trigger] init[i] == widths[i]);
        lemma_pack_unpack(b / pow2(w), init);
        assert(u.drop_last() == unpack_spec(b / pow2(w), init));
        assert(w <= 8);
        assert(pow2(w) <= 256) by {
            lemma2_to64();
            if w < 8 {
                vstd::arithmetic::power2::lemma_pow2_strictly_increases(w, 8);
            }
        }
        assert(u.last() as nat == b % pow2(w));
        assert((b % pow2(w)) % pow2(w) == b % pow2(w)) by {
            vstd::arithmetic::div_mod::lemma_mod_twice(b as int, pow2(w) as int);
        }
        lemma_mod_breakdown(b as int, pow2(w) as int, pow2(s) as int);
        lemma_pow2_adds(s, w);
        assert(pow2(w) * pow2(s) == pow2(s) * pow2(w)) by (nonlinear_arith);
        assert(pow2(w) * ((b / pow2(w)) % pow2(s)) == ((b / pow2(w)) % pow2(s)) * pow2(w)) by (
        nonlinear_arith);
    }
}

/// Unpacking packed fields gives back each value masked to its width.
pub proof fn lemma_unpack_pack(values: Seq<u8>, widths: Seq<u8>)
    requires
        values.len() == widths.len(),
        narrow(widths),
    ensures
        unpack_spec(pack_spec(values, widths), widths) == masked(values, widths),
    decreases widths.len(),
{
    if widths.len() == 0 {
        assert(masked(values, widths) =~= Seq::<u8>::empty());
    } else {
        let w = widths.last() as nat;
        let p = pack_spec(values.drop_last(), widths.drop_last());
        let r = values.last() as nat % pow2(w);
        let b = pack_spec(values, widths);
        lemma_pow2_pos(w);
        lemma_fundamental_div_mod_converse(b as int, pow2(w) as int, p as int, r as int);
        assert(forall|i: int|
            0 <= i < widths.drop_last().len() ==> #[trigger] widths.drop_last()[i] == widths[i]);
        lemma_unpack_pack(values.drop_last(), widths.drop_last());
        assert(masked(values, widths) =~= masked(values.drop_last(), widths.drop_last()).push(
            r as u8,
        ));
    }
}

/// A width below 9 as a power of two.
fn field_span(w: u8) -> (r: u16)
    requires
        w <= 8,
    ensures
        r == pow2(w as nat),
{
    let mut p: u16 = 1;
    let mut k: u8 = 0;
    proof {
        lemma2_to64();
    }
    while k < w
        invariant
            k <= w <= 8,
            p == pow2(k as nat),
        decreases w - k,
    {
        proof {
            lemma_pow2_unfold((k + 1) as nat);
            lemma2_to64();
            if k + 1 < 8 {
                vstd::arithmetic::power2::lemma_pow2_strictly_increases((k + 1) as nat, 8);
            }
        }
        p = p * 2;
        k = k + 1;
    }
    p
}

/// The total width of the first `n` fields is at most that of all.
proof fn lemma_width_prefix(widths: Seq<u8>, n: int)
    requires
        0 <= n <= widths.len(),
    ensures
        width_sum(widths.take(n)) <= width_sum(widths),
    decreases widths.len(),
{
    if n < widths.len() {
        lemma_width_prefix(widths.drop_last(), n);
        assert(widths.drop_last().take(n) =~= widths.take(n));
    } else {
        assert(widths.take(n) =~= widths);
    }
}

/// A field is no wider than all the fields together.
proof fn lemma_width_each(widths: Seq<u8>)
    ensures
        forall|i: int| 0 <= i < widths.len() ==> #[trigger] widths[i] <= width_sum(widths),
    decreases widths.len(),
{
    if widths.len() > 0 {
        lemma_width_each(widths.drop_last());
        assert forall|i: int| 0 <= i < widths.len() implies #[trigger] widths[i] <= width_sum(
            widths,
        ) by {
            if i < widths.len() - 1 {
                assert(widths.drop_last()[i] == widths[i]);
            }
        }
    }
}

/// Packs the first `n` fields.
fn pack_prefix(values: &Vec<u8>, widths: &Vec<u8>, n: usize) -> (r: u16)
    requires
        values@.len() == widths@.len(),
        n <= widths@.len(),
        width_sum(widths@.take(n as int)) <= 8,
        narrow(widths@),
    ensures
        r == pack_spec(values@.take(n as int), widths@.take(n as int)),
        r < 256,
    decreases n,
{
    let ghost vs = values@.take(n as int);
    let ghost ws = widths@.take(n as int);
    proof {
        lemma_pack_bound(vs, ws);
        lemma2_to64();
        if width_sum(ws) < 8 {
            vstd::arithmetic::power2::lemma_pow2_strictly_increases(width_sum(ws), 8);
        }
    }
    if n == 0 {
        return 0;
    }
    proof {
        assert(vs.drop_last() =~= values@.take(n - 1));
        assert(ws.drop_last() =~= widths@.take(n - 1));
        lemma_width_prefix(ws, n - 1);
    }
    let head = pack_prefix(values, widths, n - 1);
    let span = field_span(widths[n - 1]);
    let v = values[n - 1] as u16;
    proof {
        lemma_pow2_pos(widths@[n - 1] as nat);
    }
    let low = v % span;
    assert((head as nat) * (span as nat) + (low as nat) < 256);
    assert(head * span + low < 256) by (nonlinear_arith)
        requires
            (head as nat) * (span as nat) + (low as nat) < 256,
    ;
    head * span + low
}

/// Unpacks the fields of the first `n` widths from `b`.
fn unpack_prefix(b: u16, widths: &Vec<u8>, n: usize) -> (r: Vec<u8>)
    requires
        n <= widths@.len(),
        narrow(widths@),
    ensures
        r@ == unpack_spec(b as nat, widths@.take(n as int)),
        r@.len() == n,
    decreases n,
{
    if n == 0 {
        return Vec::new();
    }
    let ghost ws = widths@.take(n as int);
    proof {
        assert(ws.drop_last() =~= widths@.take(n - 1));
        lemma_pow2_pos(widths@[n - 1] as nat);
        lemma2_to64();
        if widths@[n - 1] < 8 {
            vstd::arithmetic::power2::lemma_pow2_strictly_increases(widths@[n - 1] as nat, 8);
        }
    }
    let span = field_span(widths[n - 1]);
    let mut out = unpack_prefix(b / span, widths, n - 1);
    out.push((b % span) as u8);
    out
}

/// Packs bit fields into one byte, the first field in the high bits. Each
/// value is masked to its width: a wider value loses its high bits.
pub fn pack(values: &Vec<u8>, widths: &Vec<u8>) -> (r: u8)
    requires
        values@.len() == widths@.len(),
        width_sum(widths@) == 8,
    ensures
        r == pack_spec(values@, widths@),
{
    proof {
        lemma_width_each(widths@);
        assert(widths@.take(widths@.len() as int) =~= widths@);
        assert(values@.take(values@.len() as int) =~= values@);
    }
    pack_prefix(values, widths, widths.len()) as u8
}

/// Splits a byte into bit fields of the given widths, the first from the
/// high bits.
pub fn unpack(byte: u8, widths: &Vec<u8>) -> (r: Vec<u8>)
    requires
        width_sum(widths@) == 8,
    ensures
        r@ == unpack_spec(byte as nat, widths@),
        r@.len() == widths@.len(),
{
    proof {
        lemma_width_each(widths@);
        assert(widths@.take(widths@.len() as int) =~= widths@);
    }
    unpack_prefix(byte as u16, widths, widths.len())
}

/// For widths that add up to a byte, packing the fields of a byte gives the
/// byte back.
pub proof fn lemma_byte_pack_unpack(b: u8, widths: Seq<u8>)
    requires
        width_sum(widths) == 8,
    ensures
        pack_spec(unpack_spec(b as nat, widths), widths) == b,
{
    lemma_width_each(widths);
    lemma_pack_unpack(b as nat, widths);
    lemma2_to64();
}

} // verus!
