//! The record of one internal node: a bit-packed header, a table of
//! pointers, and the label bytes that the header does not hold.

use crate::bits::{
    bits_of, field_at, lemma_num_of_bits_of, lemma_num_of_bound, lemma_pack_add, lemma_pack_len,
    lemma_pack_unpack, lemma_pad8_len, lemma_unpack_add, lemma_unpack_len, lemma_unpack_pack, pack,
    pad8, unpack, BitReader, BitWriter,
};
use crate::error::ReadError;
use vstd::arithmetic::power2::{lemma2_to64, pow2};
use vstd::prelude::*;

verus! {

/// Bits of one label byte.
pub const CHAR_BITS: usize = 8;

/// Bits of the number of children, stored less one.
pub const SIZE_BITS: usize = 8;

/// Bits of the first byte of an edge label.
pub const FIRSTS_BITS: usize = 8;

/// Bits of the flag that tells a terminal child from an internal one.
pub const ARE_TERMINAL_BITS: usize = 1;

/// Bits of the width of a pointer in bytes, stored less one.
pub const PTR_SIZES_BITS: usize = 2;

/// Bits of the length of an edge label, stored less one.
pub const TERM_LENS_BITS: usize = 4;

/// The longest edge label that a record can hold.
pub const MAX_EDGE: usize = 16;

/// The largest number of children that a record can hold.
pub const MAX_CHILDREN: usize = 256;

/// Bytes that a pointer of value `x` takes.
pub open spec fn ptr_width(x: nat) -> nat {
    if x > 0xffffff {
        4
    } else if x > 0xffff {
        3
    } else if x > 0xff {
        2
    } else {
        1
    }
}

/// The bytes of `x`, most significant first, without leading zero bytes;
/// one zero byte for zero.
pub open spec fn be_bytes(x: nat) -> Seq<u8>
    decreases x,
{
    if x < 256 {
        seq![x as u8]
    } else {
        be_bytes(x / 256).push((x % 256) as u8)
    }
}

/// The number that a byte string spells, most significant byte first.
pub open spec fn be_value(bytes: Seq<u8>) -> nat
    decreases bytes.len(),
{
    if bytes.len() == 0 {
        0
    } else {
        256 * be_value(bytes.drop_last()) + bytes.last() as nat
    }
}

/// A pointer takes as many bytes as its width says.
pub proof fn lemma_be_bytes_len(x: nat)
    requires
        x <= u32::MAX,
    ensures
        be_bytes(x).len() == ptr_width(x),
{
    reveal_with_fuel(be_bytes, 5);
}

/// Reading the bytes of a number gives the number back.
pub proof fn lemma_be_value_bytes(x: nat)
    ensures
        be_value(be_bytes(x)) == x,
    decreases x,
{
    if x < 256 {
        assert(be_bytes(x).drop_last() =~= Seq::<u8>::empty());
        assert(be_value(be_bytes(x)) == 256 * be_value(Seq::<u8>::empty()) + x);
    } else {
        lemma_be_value_bytes(x / 256);
        assert(be_bytes(x).drop_last() =~= be_bytes(x / 256));
    }
}

/// A string of `n` bytes spells a number below `256^n`.
pub proof fn lemma_be_value_bound(bytes: Seq<u8>)
    requires
        bytes.len() <= 4,
    ensures
        be_value(bytes) <= u32::MAX,
        bytes.len() <= 3 ==> be_value(bytes) <= 0xffffff,
        bytes.len() <= 2 ==> be_value(bytes) <= 0xffff,
        bytes.len() <= 1 ==> be_value(bytes) <= 0xff,
        bytes.len() == 0 ==> be_value(bytes) == 0,
    decreases bytes.len(),
{
    if bytes.len() > 0 {
        lemma_be_value_bound(bytes.drop_last());
    }
}

/// Width in bytes of a pointer of value `x`, which is not zero.
pub fn log2(x: u32) -> (w: u32)
    requires
        x > 0,
    ensures
        w == ptr_width(x as nat),
        1 <= w <= 4,
{
    if x > 0xffffff {
        4
    } else if x > 0xffff {
        3
    } else if x > 0xff {
        2
    } else {
        1
    }
}

/// The bit string of a row of fields, each `size` bits wide.
pub open spec fn fields(vals: Seq<u32>, size: nat) -> Seq<bool>
    decreases vals.len(),
{
    if vals.len() == 0 {
        Seq::empty()
    } else {
        fields(vals.drop_last(), size) + bits_of(vals.last(), size)
    }
}

/// A row of `n` fields takes `n * size` bits.
pub proof fn lemma_fields_len(vals: Seq<u32>, size: nat)
    ensures
        fields(vals, size).len() == vals.len() * size,
    decreases vals.len(),
{
    if vals.len() > 0 {
        lemma_fields_len(vals.drop_last(), size);
        assert((vals.len() - 1) * size + size == vals.len() * size) by (nonlinear_arith);
    } else {
        assert(0 * size == 0) by (nonlinear_arith);
    }
}

/// Field `i` of a row stands at bit `i * size` of it.
pub proof fn lemma_fields_at(vals: Seq<u32>, size: nat, i: int)
    requires
        0 <= i < vals.len(),
    ensures
        i * size + size <= fields(vals, size).len(),
        fields(vals, size).subrange(i * size, i * size + size) == bits_of(vals[i], size),
    decreases vals.len(),
{
    let rest = vals.drop_last();
    lemma_fields_len(vals, size);
    lemma_fields_len(rest, size);
    assert(i * size + size <= vals.len() * size) by (nonlinear_arith)
        requires
            0 <= i < vals.len(),
    ;
    if i == vals.len() - 1 {
        assert(fields(vals, size).subrange(i * size, i * size + size) =~= bits_of(vals[i], size));
    } else {
        lemma_fields_at(rest, size, i);
        assert(fields(vals, size).subrange(i * size, i * size + size) =~= fields(
            rest,
            size,
        ).subrange(i * size, i * size + size));
    }
}

/// Writes a row of fields, each `size` bits wide.
pub fn write_fields(w: &mut BitWriter, target: &mut Vec<u8>, vals: &Vec<u32>, size: usize)
    requires
        old(w).wf(),
        size <= 25,
        forall|i: int| 0 <= i < vals@.len() ==> vals@[i] < pow2(size as nat),
    ensures
        final(w).wf(),
        unpack(final(target)@) + final(w)@ == unpack(old(target)@) + old(w)@ + fields(
            vals@,
            size as nat,
        ),
        vals@.len() == 0 ==> final(w)@ == old(w)@ && final(target)@ == old(target)@,
        vals@.len() > 0 ==> final(w)@.len() == (old(w)@.len() + (vals@.len() - 1) * size) % 8
            + size,
{
    let mut i: usize = 0;
    let ghost mut done: int = 0;
    proof {
        assert(vals@.take(0) =~= Seq::<u32>::empty());
        assert(unpack(target@) + w@ =~= unpack(target@) + w@ + Seq::<bool>::empty());
    }
    while i < vals.len()
        invariant
            w.wf(),
            size <= 25,
            i <= vals@.len(),
            forall|i: int| 0 <= i < vals@.len() ==> vals@[i] < pow2(size as nat),
            unpack(target@) + w@ == unpack(old(target)@) + old(w)@ + fields(
                vals@.take(i as int),
                size as nat,
            ),
            i == 0 ==> w@ == old(w)@ && target@ == old(target)@,
            done == i * size,
            i > 0 ==> w@.len() == (old(w)@.len() + done - size) % 8 + size,
        decreases vals@.len() - i,
    {
        let ghost held = w@.len();
        w.write(target, size, vals[i]);
        proof {
            assert((i + 1) * size == i * size + size) by (nonlinear_arith);
            assert(w@.len() == held % 8 + size);
            if i > 0 {
                let a = old(w)@.len() + done - size;
                vstd::arithmetic::div_mod::lemma_fundamental_div_mod(a, 8);
                vstd::arithmetic::div_mod::lemma_mod_multiples_vanish(a / 8, a % 8 + size, 8);
                assert(held % 8 == (a + size) % 8);
            }
            done = done + size;
            let next = vals@.take(i + 1);
            assert(next.drop_last() =~= vals@.take(i as int));
            assert(unpack(target@) + w@ =~= unpack(old(target)@) + old(w)@ + fields(
                next,
                size as nat,
            ));
        }
        i = i + 1;
    }
    proof {
        assert(vals@.take(i as int) =~= vals@);
        assert((vals@.len() - 1) * size == vals@.len() * size - size) by (nonlinear_arith);
    }
}

/// The row of `n` fields, each `size` bits wide, that starts at bit `at` of
/// `bytes`.
pub open spec fn fields_at(bytes: Seq<u8>, at: nat, n: nat, size: nat) -> Seq<u32> {
    Seq::new(n, |i: int| field_at(bytes, (at + i * size) as nat, size) as u32)
}

/// Reads a row of `n` fields, each `size` bits wide.
///
/// Fails where the data end before the row does.
pub fn read_fields(r: &mut BitReader, n: usize, size: usize) -> (res: Result<Vec<u32>, ReadError>)
    requires
        old(r).wf(),
        size <= 25,
    ensures
        final(r).wf(),
        final(r).data() == old(r).data(),
        match res {
            Ok(v) => {
                &&& old(r).cursor() + n * size <= 8 * old(r).data().len()
                &&& v@ == fields_at(old(r).data(), old(r).cursor() as nat, n as nat, size as nat)
                &&& final(r).cursor() == old(r).cursor() + n * size
            },
            Err(e) => {
                &&& e == ReadError::Truncated
                &&& old(r).cursor() + n * size > 8 * old(r).data().len()
            },
        },
{
    let mut v: Vec<u32> = Vec::new();
    let mut i: usize = 0;
    proof {
        assert(0 * size == 0) by (nonlinear_arith);
        r.lemma_cursor_in_data();
    }
    while i < n
        invariant
            r.wf(),
            size <= 25,
            i <= n,
            r.data() == old(r).data(),
            r.cursor() == old(r).cursor() + i * size,
            r.cursor() <= 8 * r.data().len(),
            old(r).cursor() >= 0,
            v@.len() == i,
            forall|j: int|
                0 <= j < i ==> v@[j] == field_at(
                    old(r).data(),
                    (old(r).cursor() + j * size) as nat,
                    size as nat,
                ) as u32,
        decreases n - i,
    {
        proof {
            assert((i + 1) * size == i * size + size) by (nonlinear_arith);
            assert((i + 1) * size <= n * size) by (nonlinear_arith)
                requires
                    i + 1 <= n,
            ;
        }
        match r.read(size) {
            Ok(x) => {
                v.push(x);
            },
            Err(e) => {
                return Err(e);
            },
        }
        i = i + 1;
    }
    proof {
        assert(v@ =~= fields_at(old(r).data(), old(r).cursor() as nat, n as nat, size as nat));
    }
    Ok(v)
}

/// What a record says of one child: whether it is a key or another record,
/// the label of the edge to it, and its pointer, which is the term id of a
/// key and the distance back to another record.
pub struct EdgeModel {
    pub is_terminal: bool,
    pub label: Seq<u8>,
    pub pointer: nat,
}

/// A label and a pointer that a record can hold.
pub open spec fn edge_ok(e: EdgeModel) -> bool {
    &&& 1 <= e.label.len() <= MAX_EDGE
    &&& 1 <= e.pointer <= u32::MAX
}

/// Children that one record can hold.
pub open spec fn edges_ok(es: Seq<EdgeModel>) -> bool {
    &&& 1 <= es.len() <= MAX_CHILDREN
    &&& forall|i: int| 0 <= i < es.len() ==> edge_ok(#[trigger] es[i])
}

/// The terminal flags of a record's header.
pub open spec fn flags_of(es: Seq<EdgeModel>) -> Seq<u32> {
    Seq::new(es.len(), |i: int| if es[i].is_terminal { 1u32 } else { 0u32 })
}

/// The first label bytes of a record's header.
pub open spec fn firsts_of(es: Seq<EdgeModel>) -> Seq<u32> {
    Seq::new(es.len(), |i: int| es[i].label[0] as u32)
}

/// The pointer widths of a record's header, each less one.
pub open spec fn widths_of(es: Seq<EdgeModel>) -> Seq<u32> {
    Seq::new(es.len(), |i: int| (ptr_width(es[i].pointer) - 1) as u32)
}

/// The label lengths of a record's header, each less one.
pub open spec fn lens_of(es: Seq<EdgeModel>) -> Seq<u32> {
    Seq::new(es.len(), |i: int| (es[i].label.len() - 1) as u32)
}

/// The four rows of a record's header.
pub struct HeaderModel {
    pub flags: Seq<u32>,
    pub firsts: Seq<u32>,
    pub widths: Seq<u32>,
    pub lens: Seq<u32>,
}

/// The rows of the header of a record with the children `es`.
pub open spec fn rows_of(es: Seq<EdgeModel>) -> HeaderModel {
    HeaderModel {
        flags: flags_of(es),
        firsts: firsts_of(es),
        widths: widths_of(es),
        lens: lens_of(es),
    }
}

/// The bits of a header with the rows `hd`, before they are filled up to a
/// byte boundary: the number of children less one, then the rows.
pub open spec fn row_bits(hd: HeaderModel) -> Seq<bool> {
    bits_of((hd.flags.len() - 1) as u32, 8) + fields(hd.flags, 1) + fields(hd.firsts, 8) + fields(
        hd.widths,
        2,
    ) + fields(hd.lens, 4)
}

/// The header of a record, before it is filled up to a byte boundary.
pub open spec fn header_bits(es: Seq<EdgeModel>) -> Seq<bool> {
    row_bits(rows_of(es))
}

/// The pointers of a record, each in as many bytes as its width says.
pub open spec fn pointer_table(es: Seq<EdgeModel>) -> Seq<u8>
    decreases es.len(),
{
    if es.len() == 0 {
        Seq::empty()
    } else {
        pointer_table(es.drop_last()) + be_bytes(es.last().pointer)
    }
}

/// The label bytes of a record that its header does not hold.
pub open spec fn suffixes(es: Seq<EdgeModel>) -> Seq<u8>
    decreases es.len(),
{
    if es.len() == 0 {
        Seq::empty()
    } else {
        suffixes(es.drop_last()) + es.last().label.skip(1)
    }
}

/// The bytes of the record of a node with the children `es`.
pub open spec fn record_bytes(es: Seq<EdgeModel>) -> Seq<u8> {
    pack(pad8(header_bits(es))) + pointer_table(es) + suffixes(es)
}

/// Bytes that the header of a record with `n` children takes.
pub open spec fn header_len(n: nat) -> nat {
    (8 + 15 * n + 7) / 8
}

/// Bytes that a pointer table takes whose widths, each less one, are `widths`.
pub open spec fn sum_widths(widths: Seq<u32>) -> nat
    decreases widths.len(),
{
    if widths.len() == 0 {
        0
    } else {
        sum_widths(widths.drop_last()) + widths.last() as nat + 1
    }
}

/// Bytes that labels take outside the header whose lengths, each less one,
/// are `lens`.
pub open spec fn sum_tails(lens: Seq<u32>) -> nat
    decreases lens.len(),
{
    if lens.len() == 0 {
        0
    } else {
        sum_tails(lens.drop_last()) + lens.last() as nat
    }
}

/// The number of children that the record at the start of `rec` has.
pub open spec fn count_at(rec: Seq<u8>) -> nat {
    field_at(rec, 0, 8) + 1
}

/// The header of the record at the start of `rec`.
pub open spec fn header_at(rec: Seq<u8>) -> HeaderModel {
    let n = count_at(rec);
    HeaderModel {
        flags: fields_at(rec, 8, n, 1),
        firsts: fields_at(rec, 8 + n, n, 8),
        widths: fields_at(rec, 8 + 9 * n, n, 2),
        lens: fields_at(rec, 8 + 11 * n, n, 4),
    }
}

/// Child `i` of the record at the start of `rec`, whose header is `hd`.
pub open spec fn edge_at(rec: Seq<u8>, hd: HeaderModel, i: int) -> EdgeModel {
    let table = header_len(hd.flags.len()) as int;
    let tails = table + sum_widths(hd.widths);
    EdgeModel {
        is_terminal: hd.flags[i] == 1,
        label: seq![hd.firsts[i] as u8] + rec.subrange(
            tails + sum_tails(hd.lens.take(i)),
            tails + sum_tails(hd.lens.take(i + 1)),
        ),
        pointer: be_value(
            rec.subrange(
                table + sum_widths(hd.widths.take(i)),
                table + sum_widths(hd.widths.take(i + 1)),
            ),
        ),
    }
}

/// Bytes that the record at the start of `rec` takes, going by its header.
pub open spec fn record_len(rec: Seq<u8>) -> nat {
    let hd = header_at(rec);
    header_len(count_at(rec)) + sum_widths(hd.widths) + sum_tails(hd.lens)
}

/// The children of the record at the start of `rec`, or `Truncated` where
/// `rec` ends before the record does.
pub open spec fn parse_record(rec: Seq<u8>) -> Result<Seq<EdgeModel>, ReadError> {
    if rec.len() < 1 || rec.len() < header_len(count_at(rec)) || rec.len() < record_len(rec) {
        Err(ReadError::Truncated)
    } else {
        let hd = header_at(rec);
        Ok(Seq::new(count_at(rec), |i: int| edge_at(rec, hd, i)))
    }
}

/// A field that lies within `a` is the same in `a + b`.
pub proof fn lemma_field_at_prefix(a: Seq<u8>, b: Seq<u8>, at: nat, size: nat)
    requires
        at + size <= 8 * a.len(),
    ensures
        field_at(a + b, at, size) == field_at(a, at, size),
{
    lemma_unpack_add(a, b);
    lemma_unpack_len(a);
    assert(unpack(a + b).subrange(at as int, (at + size) as int) =~= unpack(a).subrange(
        at as int,
        (at + size) as int,
    ));
}

/// A row that lies within `a` is the same in `a + b`.
pub proof fn lemma_fields_at_prefix(a: Seq<u8>, b: Seq<u8>, at: nat, n: nat, size: nat)
    requires
        at + n * size <= 8 * a.len(),
    ensures
        fields_at(a + b, at, n, size) == fields_at(a, at, n, size),
{
    assert forall|i: int| 0 <= i < n implies #[trigger] fields_at(a + b, at, n, size)[i]
        == fields_at(a, at, n, size)[i] by {
        assert(i * size + size <= n * size) by (nonlinear_arith)
            requires
                0 <= i < n,
        ;
        assert(0 <= i * size) by (nonlinear_arith)
            requires
                0 <= i,
        ;
        lemma_field_at_prefix(a, b, (at + i * size) as nat, size);
    }
    assert(fields_at(a + b, at, n, size) =~= fields_at(a, at, n, size));
}

/// A row of fields that was written is the row that is read.
pub proof fn lemma_row_read(rec: Seq<u8>, at: nat, vals: Seq<u32>, size: nat)
    requires
        size < 32,
        at + vals.len() * size <= 8 * rec.len(),
        unpack(rec).subrange(at as int, (at + vals.len() * size) as int) == fields(vals, size),
        forall|i: int| 0 <= i < vals.len() ==> vals[i] < pow2(size),
    ensures
        fields_at(rec, at, vals.len(), size) == vals,
{
    let row = fields(vals, size);
    lemma_unpack_len(rec);
    assert forall|i: int| 0 <= i < vals.len() implies #[trigger] fields_at(
        rec,
        at,
        vals.len(),
        size,
    )[i] == vals[i] by {
        lemma_fields_at(vals, size, i);
        lemma_fields_len(vals, size);
        assert(0 <= i * size) by (nonlinear_arith)
            requires
                0 <= i,
        ;
        assert(unpack(rec).subrange(at + i * size, at + i * size + size) =~= row.subrange(
            i * size,
            i * size + size,
        ));
        lemma_num_of_bits_of(vals[i], size);
    }
    assert(fields_at(rec, at, vals.len(), size) =~= vals);
}

/// A pointer table is as long as its widths say.
pub proof fn lemma_table_len(es: Seq<EdgeModel>)
    requires
        forall|j: int| 0 <= j < es.len() ==> (#[trigger] es[j]).pointer <= u32::MAX,
    ensures
        pointer_table(es).len() == sum_widths(widths_of(es)),
    decreases es.len(),
{
    if es.len() > 0 {
        let rest = es.drop_last();
        assert(widths_of(es).drop_last() =~= widths_of(rest));
        lemma_be_bytes_len(es.last().pointer);
        lemma_table_len(rest);
    }
}

/// The table of the first `k` children starts the table of all.
pub proof fn lemma_table_prefix(es: Seq<EdgeModel>, k: int)
    requires
        0 <= k <= es.len(),
    ensures
        pointer_table(es.take(k)).len() <= pointer_table(es).len(),
        pointer_table(es).subrange(0, pointer_table(es.take(k)).len() as int) == pointer_table(
            es.take(k),
        ),
    decreases es.len(),
{
    if k == es.len() {
        assert(es.take(k) =~= es);
        assert(pointer_table(es).subrange(0, pointer_table(es).len() as int) =~= pointer_table(es));
    } else {
        let rest = es.drop_last();
        lemma_table_prefix(rest, k);
        assert(rest.take(k) =~= es.take(k));
        let n = pointer_table(es.take(k)).len() as int;
        assert(pointer_table(es).subrange(0, n) =~= pointer_table(rest).subrange(0, n));
    }
}

/// Where pointer `i` stands in the table.
pub proof fn lemma_table_at(es: Seq<EdgeModel>, i: int)
    requires
        forall|j: int| 0 <= j < es.len() ==> (#[trigger] es[j]).pointer <= u32::MAX,
        0 <= i < es.len(),
    ensures
        pointer_table(es).len() == sum_widths(widths_of(es)),
        sum_widths(widths_of(es).take(i + 1)) == sum_widths(widths_of(es).take(i)) + ptr_width(
            es[i].pointer,
        ),
        sum_widths(widths_of(es).take(i + 1)) <= pointer_table(es).len(),
        pointer_table(es).subrange(
            sum_widths(widths_of(es).take(i)) as int,
            sum_widths(widths_of(es).take(i + 1)) as int,
        ) == be_bytes(es[i].pointer),
{
    let upto = es.take(i);
    let with = es.take(i + 1);
    lemma_table_len(es);
    lemma_table_len(upto);
    lemma_table_len(with);
    assert(widths_of(es).take(i) =~= widths_of(upto));
    assert(widths_of(es).take(i + 1) =~= widths_of(with));
    assert(with.drop_last() =~= upto);
    assert(with.last() == es[i]);
    lemma_be_bytes_len(es[i].pointer);
    assert(pointer_table(with) == pointer_table(upto) + be_bytes(es[i].pointer));
    lemma_table_prefix(es, i + 1);
    let a = pointer_table(upto).len() as int;
    let b = pointer_table(with).len() as int;
    assert(pointer_table(es).subrange(a, b) =~= pointer_table(es).subrange(0, b).subrange(a, b));
    assert(pointer_table(with).subrange(a, b) =~= be_bytes(es[i].pointer));
}

/// The label bytes outside the header are as many as the lengths say.
pub proof fn lemma_suffix_len(es: Seq<EdgeModel>)
    requires
        forall|j: int| 0 <= j < es.len() ==> 1 <= (#[trigger] es[j]).label.len() <= MAX_EDGE,
    ensures
        suffixes(es).len() == sum_tails(lens_of(es)),
    decreases es.len(),
{
    if es.len() > 0 {
        let rest = es.drop_last();
        assert(lens_of(es).drop_last() =~= lens_of(rest));
        lemma_suffix_len(rest);
    }
}

/// The label bytes of the first `k` children start those of all.
pub proof fn lemma_suffix_prefix(es: Seq<EdgeModel>, k: int)
    requires
        0 <= k <= es.len(),
    ensures
        suffixes(es.take(k)).len() <= suffixes(es).len(),
        suffixes(es).subrange(0, suffixes(es.take(k)).len() as int) == suffixes(es.take(k)),
    decreases es.len(),
{
    if k == es.len() {
        assert(es.take(k) =~= es);
        assert(suffixes(es).subrange(0, suffixes(es).len() as int) =~= suffixes(es));
    } else {
        let rest = es.drop_last();
        lemma_suffix_prefix(rest, k);
        assert(rest.take(k) =~= es.take(k));
        let n = suffixes(es.take(k)).len() as int;
        assert(suffixes(es).subrange(0, n) =~= suffixes(rest).subrange(0, n));
    }
}

/// Where the tail of label `i` stands among the label bytes.
pub proof fn lemma_suffix_at(es: Seq<EdgeModel>, i: int)
    requires
        forall|j: int| 0 <= j < es.len() ==> 1 <= (#[trigger] es[j]).label.len() <= MAX_EDGE,
        0 <= i < es.len(),
    ensures
        suffixes(es).len() == sum_tails(lens_of(es)),
        sum_tails(lens_of(es).take(i + 1)) == sum_tails(lens_of(es).take(i)) + es[i].label.len()
            - 1,
        sum_tails(lens_of(es).take(i + 1)) <= suffixes(es).len(),
        suffixes(es).subrange(
            sum_tails(lens_of(es).take(i)) as int,
            sum_tails(lens_of(es).take(i + 1)) as int,
        ) == es[i].label.skip(1),
{
    let upto = es.take(i);
    let with = es.take(i + 1);
    lemma_suffix_len(es);
    lemma_suffix_len(upto);
    lemma_suffix_len(with);
    assert(lens_of(es).take(i) =~= lens_of(upto));
    assert(lens_of(es).take(i + 1) =~= lens_of(with));
    assert(with.drop_last() =~= upto);
    assert(with.last() == es[i]);
    assert(suffixes(with) == suffixes(upto) + es[i].label.skip(1));
    lemma_suffix_prefix(es, i + 1);
    let a = suffixes(upto).len() as int;
    let b = suffixes(with).len() as int;
    assert(suffixes(es).subrange(a, b) =~= suffixes(es).subrange(0, b).subrange(a, b));
    assert(suffixes(with).subrange(a, b) =~= es[i].label.skip(1));
}

/// The bytes of a pointer table up to pointer `i` are among those up to the
/// next, and these among all.
pub proof fn lemma_sum_widths_take(widths: Seq<u32>, i: int)
    requires
        0 <= i < widths.len(),
    ensures
        sum_widths(widths.take(i + 1)) == sum_widths(widths.take(i)) + widths[i] + 1,
        sum_widths(widths.take(i + 1)) <= sum_widths(widths),
    decreases widths.len(),
{
    assert(widths.take(i + 1).drop_last() =~= widths.take(i));
    if i == widths.len() - 1 {
        assert(widths.take(i + 1) =~= widths);
    } else {
        lemma_sum_widths_take(widths.drop_last(), i);
        assert(widths.drop_last().take(i + 1) =~= widths.take(i + 1));
    }
}

/// The label bytes up to label `i` are among those up to the next, and
/// these among all.
pub proof fn lemma_sum_tails_take(lens: Seq<u32>, i: int)
    requires
        0 <= i < lens.len(),
    ensures
        sum_tails(lens.take(i + 1)) == sum_tails(lens.take(i)) + lens[i],
        sum_tails(lens.take(i + 1)) <= sum_tails(lens),
    decreases lens.len(),
{
    assert(lens.take(i + 1).drop_last() =~= lens.take(i));
    if i == lens.len() - 1 {
        assert(lens.take(i + 1) =~= lens);
    } else {
        lemma_sum_tails_take(lens.drop_last(), i);
        assert(lens.drop_last().take(i + 1) =~= lens.take(i + 1));
    }
}

/// The header of a record is as long as its number of children says.
pub proof fn lemma_header_bits_len(es: Seq<EdgeModel>)
    ensures
        header_bits(es).len() == 8 + 15 * es.len(),
        pack(pad8(header_bits(es))).len() == header_len(es.len()),
        pad8(header_bits(es)).len() == 8 * header_len(es.len()),
{
    lemma_fields_len(flags_of(es), 1);
    lemma_fields_len(firsts_of(es), 8);
    lemma_fields_len(widths_of(es), 2);
    lemma_fields_len(lens_of(es), 4);
    assert(header_bits(es).len() == 8 + 15 * es.len());
    lemma_pad8_len(header_bits(es));
}

/// Where the rows stand in the header of a record.
pub proof fn lemma_header_rows(es: Seq<EdgeModel>)
    ensures
        ({
            let n = es.len() as int;
            let hb = header_bits(es);
            &&& hb.len() == 8 + 15 * n
            &&& hb.subrange(0, 8) == bits_of((n - 1) as u32, 8)
            &&& hb.subrange(8, 8 + n) == fields(flags_of(es), 1)
            &&& hb.subrange(8 + n, 8 + 9 * n) == fields(firsts_of(es), 8)
            &&& hb.subrange(8 + 9 * n, 8 + 11 * n) == fields(widths_of(es), 2)
            &&& hb.subrange(8 + 11 * n, 8 + 15 * n) == fields(lens_of(es), 4)
        }),
{
    let n = es.len() as int;
    let hb = header_bits(es);
    let a = bits_of((n - 1) as u32, 8);
    let b = fields(flags_of(es), 1);
    let c = fields(firsts_of(es), 8);
    let d = fields(widths_of(es), 2);
    let e = fields(lens_of(es), 4);
    lemma_fields_len(flags_of(es), 1);
    lemma_fields_len(firsts_of(es), 8);
    lemma_fields_len(widths_of(es), 2);
    lemma_fields_len(lens_of(es), 4);
    assert(hb == a + b + c + d + e);
    assert(hb.subrange(0, 8) =~= a);
    assert(hb.subrange(8, 8 + n) =~= b);
    assert(hb.subrange(8 + n, 8 + 9 * n) =~= c);
    assert(hb.subrange(8 + 9 * n, 8 + 11 * n) =~= d);
    assert(hb.subrange(8 + 11 * n, 8 + 15 * n) =~= e);
}

/// The bits of a buffer that starts with a header start with the bits of
/// the header.
pub proof fn lemma_header_stream(hb: Seq<bool>, rest: Seq<u8>)
    ensures
        hb.len() <= unpack(pack(pad8(hb)) + rest).len(),
        unpack(pack(pad8(hb)) + rest).subrange(0, hb.len() as int) == hb,
{
    let head = pack(pad8(hb));
    lemma_unpack_pack(pad8(hb));
    lemma_unpack_add(head, rest);
    lemma_unpack_len(head + rest);
    lemma_unpack_len(head);
    lemma_pack_len(pad8(hb));
    assert(unpack(head + rest).subrange(0, hb.len() as int) =~= hb);
}

/// A piece of a bit string that starts with `hb` is a piece of `hb`, where
/// it lies within it.
pub proof fn lemma_piece(stream: Seq<bool>, hb: Seq<bool>, from: int, to: int)
    requires
        hb.len() <= stream.len(),
        stream.subrange(0, hb.len() as int) == hb,
        0 <= from <= to <= hb.len(),
    ensures
        stream.subrange(from, to) == hb.subrange(from, to),
{
    assert(stream.subrange(from, to) =~= stream.subrange(0, hb.len() as int).subrange(from, to));
}

/// Reading the header of a record where it was written gives its rows back.
#[verifier::rlimit(50)]
pub proof fn lemma_header_written(es: Seq<EdgeModel>, rest: Seq<u8>)
    requires
        edges_ok(es),
    ensures
        count_at(pack(pad8(header_bits(es))) + rest) == es.len(),
        header_at(pack(pad8(header_bits(es))) + rest) == rows_of(es),
{
    let n = es.len();
    let m = n as int;
    let hb = header_bits(es);
    let rec = pack(pad8(hb)) + rest;
    let stream = unpack(rec);
    lemma2_to64();
    lemma_header_rows(es);
    lemma_header_stream(hb, rest);
    lemma_header_bits_len(es);
    assert(m * 1 == m && 8 + m + m * 8 == 8 + 9 * m && 8 + 9 * m + m * 2 == 8 + 11 * m && 8 + 11 * m
        + m * 4 == 8 + 15 * m);
    assert(count_at(rec) == n) by {
        lemma_piece(stream, hb, 0, 8);
        lemma_num_of_bits_of((n - 1) as u32, 8);
    }
    assert(fields_at(rec, 8, n, 1) == flags_of(es)) by {
        lemma_piece(stream, hb, 8, 8 + m);
        lemma_row_read(rec, 8, flags_of(es), 1);
    }
    assert(fields_at(rec, 8 + n, n, 8) == firsts_of(es)) by {
        lemma_piece(stream, hb, 8 + m, 8 + 9 * m);
        lemma_row_read(rec, 8 + n, firsts_of(es), 8);
    }
    assert(fields_at(rec, 8 + 9 * n, n, 2) == widths_of(es)) by {
        lemma_piece(stream, hb, 8 + 9 * m, 8 + 11 * m);
        lemma_row_read(rec, 8 + 9 * n, widths_of(es), 2);
    }
    assert(fields_at(rec, 8 + 11 * n, n, 4) == lens_of(es)) by {
        lemma_piece(stream, hb, 8 + 11 * m, 8 + 15 * m);
        lemma_row_read(rec, 8 + 11 * n, lens_of(es), 4);
    }
}

/// Reading a record where it was written gives its children back, whatever
/// follows it.
#[verifier::rlimit(50)]
pub proof fn lemma_parse_written(es: Seq<EdgeModel>, more: Seq<u8>)
    requires
        edges_ok(es),
    ensures
        parse_record(record_bytes(es) + more) == Ok::<Seq<EdgeModel>, ReadError>(es),
        record_len(record_bytes(es) + more) == record_bytes(es).len(),
{
    let n = es.len();
    let head = pack(pad8(header_bits(es)));
    let table = pointer_table(es);
    let tails = suffixes(es);
    let rec = record_bytes(es) + more;
    assert(rec =~= head + (table + tails + more));
    lemma_header_written(es, table + tails + more);
    lemma_header_bits_len(es);
    let hd = header_at(rec);
    lemma_table_at(es, 0);
    lemma_suffix_at(es, 0);
    assert(record_len(rec) == record_bytes(es).len());
    let h = header_len(n) as int;
    let t = h + table.len();
    assert forall|i: int| 0 <= i < n implies edge_at(rec, hd, i) == es[i] by {
        lemma_table_at(es, i);
        lemma_suffix_at(es, i);
        let a = sum_widths(hd.widths.take(i)) as int;
        let b = sum_widths(hd.widths.take(i + 1)) as int;
        assert(rec.subrange(h + a, h + b) =~= table.subrange(a, b));
        lemma_be_value_bytes(es[i].pointer);
        let c = sum_tails(hd.lens.take(i)) as int;
        let d = sum_tails(hd.lens.take(i + 1)) as int;
        assert(rec.subrange(t + c, t + d) =~= tails.subrange(c, d));
        assert(seq![es[i].label[0]] + es[i].label.skip(1) =~= es[i].label);
    }
    assert(Seq::new(n, |i: int| edge_at(rec, hd, i)) =~= es);
}

/// A record that was read is read the same when more bytes follow.
#[verifier::rlimit(50)]
pub proof fn lemma_parse_extend(rec: Seq<u8>, more: Seq<u8>)
    requires
        parse_record(rec) is Ok,
    ensures
        parse_record(rec + more) == parse_record(rec),
        record_len(rec + more) == record_len(rec),
{
    let n = count_at(rec);
    let long = rec + more;
    lemma_field_at_prefix(rec, more, 0, 8);
    lemma_fields_at_prefix(rec, more, 8, n, 1);
    lemma_fields_at_prefix(rec, more, 8 + n, n, 8);
    lemma_fields_at_prefix(rec, more, 8 + 9 * n, n, 2);
    lemma_fields_at_prefix(rec, more, 8 + 11 * n, n, 4);
    let hd = header_at(rec);
    assert(header_at(long) == hd);
    let h = header_len(n) as int;
    let t = h + sum_widths(hd.widths);
    assert forall|i: int| 0 <= i < n implies edge_at(long, hd, i) == edge_at(rec, hd, i) by {
        lemma_sum_widths_take(hd.widths, i);
        lemma_sum_tails_take(hd.lens, i);
        let a = sum_widths(hd.widths.take(i)) as int;
        let b = sum_widths(hd.widths.take(i + 1)) as int;
        assert(long.subrange(h + a, h + b) =~= rec.subrange(h + a, h + b));
        let c = sum_tails(hd.lens.take(i)) as int;
        let d = sum_tails(hd.lens.take(i + 1)) as int;
        assert(long.subrange(t + c, t + d) =~= rec.subrange(t + c, t + d));
    }
    assert(Seq::new(n, |i: int| edge_at(long, hd, i)) =~= Seq::new(
        n,
        |i: int| edge_at(rec, hd, i),
    ));
}

/// Every label that is read is between 1 and `MAX_EDGE` bytes long, every
/// pointer fits in 32 bits, and a record has between 1 and `MAX_CHILDREN`
/// children.
pub proof fn lemma_parsed_bounds(rec: Seq<u8>)
    requires
        parse_record(rec) is Ok,
    ensures
        1 <= parse_record(rec)->Ok_0.len() <= MAX_CHILDREN,
        forall|i: int|
            0 <= i < parse_record(rec)->Ok_0.len() ==> {
                let e = #[trigger] parse_record(rec)->Ok_0[i];
                &&& 1 <= e.label.len() <= MAX_EDGE
                &&& e.pointer <= u32::MAX
            },
{
    let n = count_at(rec);
    let hd = header_at(rec);
    lemma2_to64();
    lemma_field_bound(rec, 0, 8);
    assert forall|i: int| 0 <= i < n implies {
        let e = #[trigger] parse_record(rec)->Ok_0[i];
        &&& 1 <= e.label.len() <= MAX_EDGE
        &&& e.pointer <= u32::MAX
    } by {
        lemma_sum_widths_take(hd.widths, i);
        lemma_sum_tails_take(hd.lens, i);
        lemma_field_bound(rec, (8 + 9 * n + i * 2) as nat, 2);
        lemma_field_bound(rec, (8 + 11 * n + i * 4) as nat, 4);
        let h = header_len(n) as int;
        let a = sum_widths(hd.widths.take(i)) as int;
        let b = sum_widths(hd.widths.take(i + 1)) as int;
        lemma_be_value_bound(rec.subrange(h + a, h + b));
    }
}

/// A field of `size` bits is below `2^size`.
pub proof fn lemma_field_bound(bytes: Seq<u8>, at: nat, size: nat)
    requires
        at + size <= 8 * bytes.len(),
    ensures
        field_at(bytes, at, size) < pow2(size),
{
    lemma_unpack_len(bytes);
    lemma_num_of_bound(unpack(bytes).subrange(at as int, (at + size) as int));
}

/// The four rows of a record's header.
pub struct Header {
    /// For each child, 1 where it is a key.
    pub are_terminal: Vec<u32>,
    /// For each child, the first byte of its label.
    pub firsts: Vec<u32>,
    /// For each child, the width of its pointer, less one.
    pub ptr_sizes: Vec<u32>,
    /// For each child, the length of its label, less one.
    pub term_lens: Vec<u32>,
}

impl View for Header {
    type V = HeaderModel;

    open spec fn view(&self) -> HeaderModel {
        HeaderModel {
            flags: self.are_terminal@,
            firsts: self.firsts@,
            widths: self.ptr_sizes@,
            lens: self.term_lens@,
        }
    }
}

impl Header {
    /// The rows are equally long, and each field is within its bits.
    pub open spec fn wf(&self) -> bool {
        &&& 1 <= self.are_terminal@.len() <= MAX_CHILDREN
        &&& self.firsts@.len() == self.are_terminal@.len()
        &&& self.ptr_sizes@.len() == self.are_terminal@.len()
        &&& self.term_lens@.len() == self.are_terminal@.len()
        &&& forall|i: int| 0 <= i < self.are_terminal@.len() ==> self.are_terminal@[i] <= 1
        &&& forall|i: int| 0 <= i < self.firsts@.len() ==> self.firsts@[i] < 256
        &&& forall|i: int| 0 <= i < self.ptr_sizes@.len() ==> self.ptr_sizes@[i] <= 3
        &&& forall|i: int| 0 <= i < self.term_lens@.len() ==> self.term_lens@[i] < MAX_EDGE
    }
}

/// Reads the header of the record at the start of `rec`, and says how many
/// bytes it takes.
#[verifier::rlimit(50)]
pub fn read_header(rec: &[u8]) -> (res: Result<(Header, usize), ReadError>)
    ensures
        match res {
            Ok((header, len)) => {
                &&& header.wf()
                &&& header@ == header_at(rec@)
                &&& header@.flags.len() == count_at(rec@)
                &&& len == header_len(count_at(rec@))
                &&& len <= rec@.len()
            },
            Err(e) => {
                &&& e == ReadError::Truncated
                &&& (rec@.len() < 1 || rec@.len() < header_len(count_at(rec@)))
            },
        },
{
    let mut br = BitReader::new(rec);
    proof {
        lemma2_to64();
    }
    let count = match br.read(SIZE_BITS) {
        Ok(x) => x,
        Err(e) => {
            return Err(e);
        },
    };
    proof {
        lemma_field_bound(rec@, 0, 8);
    }
    let size = count as usize + 1;
    let are_terminal = match read_fields(&mut br, size, ARE_TERMINAL_BITS) {
        Ok(v) => v,
        Err(e) => {
            return Err(e);
        },
    };
    let firsts = match read_fields(&mut br, size, FIRSTS_BITS) {
        Ok(v) => v,
        Err(e) => {
            return Err(e);
        },
    };
    let ptr_sizes = match read_fields(&mut br, size, PTR_SIZES_BITS) {
        Ok(v) => v,
        Err(e) => {
            return Err(e);
        },
    };
    let term_lens = match read_fields(&mut br, size, TERM_LENS_BITS) {
        Ok(v) => v,
        Err(e) => {
            return Err(e);
        },
    };
    let len = br.advanced_by();
    let header = Header {
        are_terminal: are_terminal,
        firsts: firsts,
        ptr_sizes: ptr_sizes,
        term_lens: term_lens,
    };
    proof {
        assert forall|i: int| 0 <= i < size implies header.are_terminal@[i] <= 1
            && header.firsts@[i] < 256 && header.ptr_sizes@[i] <= 3 && header.term_lens@[i]
            < MAX_EDGE by {
            lemma_field_bound(rec@, (8 + i * 1) as nat, 1);
            lemma_field_bound(rec@, (8 + size + i * 8) as nat, 8);
            lemma_field_bound(rec@, (8 + 9 * size + i * 2) as nat, 2);
            lemma_field_bound(rec@, (8 + 11 * size + i * 4) as nat, 4);
        }
    }
    Ok((header, len))
}

/// Bytes and bits that spell the same stream end, once the stream is closed,
/// in the same bytes.
pub proof fn lemma_stream_close(before: Seq<u8>, bits: Seq<bool>, after: Seq<u8>, held: Seq<bool>)
    requires
        unpack(after) + held == unpack(before) + bits,
    ensures
        after + pack(pad8(held)) == before + pack(pad8(bits)),
{
    let stream = unpack(after) + held;
    lemma_unpack_len(after);
    lemma_unpack_len(before);
    assert(pad8(stream) =~= unpack(after) + pad8(held));
    assert(pad8(stream) =~= unpack(before) + pad8(bits));
    lemma_pack_add(unpack(after), pad8(held));
    lemma_pack_add(unpack(before), pad8(bits));
    lemma_pack_unpack(after);
    lemma_pack_unpack(before);
}

/// Writes the header of a record: the number of children less one, the four
/// rows, and zero bits up to the next byte boundary.
pub fn write_header(target: &mut Vec<u8>, header: &Header)
    requires
        header.wf(),
    ensures
        final(target)@ == old(target)@ + pack(pad8(row_bits(header@))),
{
    let mut ba = BitWriter::new();
    let size = header.are_terminal.len();
    proof {
        lemma2_to64();
    }
    ba.write(target, SIZE_BITS, (size - 1) as u32);
    write_fields(&mut ba, target, &header.are_terminal, ARE_TERMINAL_BITS);
    write_fields(&mut ba, target, &header.firsts, FIRSTS_BITS);
    write_fields(&mut ba, target, &header.ptr_sizes, PTR_SIZES_BITS);
    write_fields(&mut ba, target, &header.term_lens, TERM_LENS_BITS);
    proof {
        assert(unpack(target@) + ba@ =~= unpack(old(target)@) + row_bits(header@));
        lemma_stream_close(old(target)@, row_bits(header@), target@, ba@);
    }
    ba.close(target);
}

} // verus!
