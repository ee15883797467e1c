//! Field offsets of `#[repr(C)]` structs, and the way back from a field's
//! address to the address of the struct that holds it.
use vstd::prelude::*;

verus! {

/// The size and alignment of one field of a struct.
#[derive(Clone, Copy, Debug)]
pub struct FieldLayout {
    pub size: usize,
    pub align: usize,
}

/// `x` rounded up to a multiple of `a`.
pub open spec fn align_up(x: int, a: int) -> int {
    if x % a == 0 {
        x
    } else {
        x + (a - x % a)
    }
}

/// Where the last of `fields` ends when they are laid out in order, each at
/// the first offset after the previous one that its alignment allows.
pub open spec fn fields_end(fields: Seq<FieldLayout>) -> int
    decreases fields.len(),
{
    if fields.len() == 0 {
        0
    } else {
        align_up(fields_end(fields.drop_last()), fields.last().align as int) + fields.last().size
    }
}

/// The offset of field `k` of a `#[repr(C)]` struct with these fields.
pub open spec fn field_offset(fields: Seq<FieldLayout>, k: int) -> int {
    align_up(fields_end(fields.take(k)), fields[k].align as int)
}

/// The fields of a struct that can exist: non-zero alignments, and a size
/// that fits an `isize`.
pub open spec fn valid_fields(fields: Seq<FieldLayout>) -> bool {
    &&& forall|i: int| 0 <= i < fields.len() ==> (#[trigger] fields[i]).align > 0
    &&& fields_end(fields) <= isize::MAX
}

/// Rounding up to a multiple of a positive number never goes down, and
/// stays below the next multiple.
proof fn lemma_align_up(x: int, a: int)
    requires
        x >= 0,
        a > 0,
    ensures
        x <= align_up(x, a) < x + a,
{
}

/// The fields laid out so far never end past the end of the whole struct.
proof fn lemma_prefix_end(fields: Seq<FieldLayout>, j: int)
    requires
        0 <= j <= fields.len(),
        forall|i: int| 0 <= i < fields.len() ==> (#[trigger] fields[i]).align > 0,
    ensures
        0 <= fields_end(fields.take(j)) <= fields_end(fields),
    decreases fields.len() - j,
{
    if j == fields.len() {
        assert(fields.take(j) =~= fields);
        lemma_end_nonnegative(fields);
    } else {
        lemma_prefix_end(fields, j + 1);
        let p = fields.take(j + 1);
        assert(p.drop_last() =~= fields.take(j));
        assert(p.last() == fields[j]);
        lemma_end_nonnegative(fields.take(j));
        lemma_align_up(fields_end(fields.take(j)), fields[j].align as int);
    }
}

/// A layout never ends before offset zero.
proof fn lemma_end_nonnegative(fields: Seq<FieldLayout>)
    requires
        forall|i: int| 0 <= i < fields.len() ==> (#[trigger] fields[i]).align > 0,
    ensures
        fields_end(fields) >= 0,
    decreases fields.len(),
{
    if fields.len() > 0 {
        let d = fields.drop_last();
        assert forall|i: int| 0 <= i < d.len() implies (#[trigger] d[i]).align > 0 by {
            assert(d[i] == fields[i]);
        }
        lemma_end_nonnegative(d);
        lemma_align_up(fields_end(d), fields.last().align as int);
    }
}

/// Fields of a `#[repr(C)]` struct lie in declaration order without
/// overlapping, each at an offset its alignment divides.
pub proof fn law_fields_in_order(fields: Seq<FieldLayout>, k: int)
    requires
        valid_fields(fields),
        0 <= k < fields.len(),
    ensures
        field_offset(fields, k) % (fields[k].align as int) == 0,
        k + 1 < fields.len() ==> field_offset(fields, k) + fields[k].size <= field_offset(
            fields,
            k + 1,
        ),
        field_offset(fields, k) + fields[k].size <= fields_end(fields),
{
    lemma_prefix_end(fields, k);
    lemma_prefix_end(fields, k + 1);
    let p = fields.take(k + 1);
    assert(p.drop_last() =~= fields.take(k));
    assert(p.last() == fields[k]);
    let x = fields_end(fields.take(k));
    let a = fields[k].align as int;
    assert(align_up(x, a) % a == 0) by (nonlinear_arith)
        requires
            a > 0,
            x >= 0,
            align_up(x, a) == if x % a == 0 {
                x
            } else {
                x + (a - x % a)
            },
    ;
    if k + 1 < fields.len() {
        lemma_align_up(fields_end(fields.take(k + 1)), fields[k + 1].align as int);
    }
}

/// The first field sits at offset zero, and every later field at the
/// first offset its alignment divides that is not before the end of the
/// field ahead of it.
pub proof fn law_offsets_are_tight(fields: Seq<FieldLayout>, k: int)
    requires
        valid_fields(fields),
        0 <= k < fields.len(),
    ensures
        k == 0 ==> field_offset(fields, k) == 0,
        k > 0 ==> {
            let prev_end = field_offset(fields, k - 1) + fields[k - 1].size;
            &&& prev_end <= field_offset(fields, k)
            &&& field_offset(fields, k) < prev_end + fields[k].align
            &&& field_offset(fields, k) % (fields[k].align as int) == 0
        },
{
    if k == 0 {
        assert(fields.take(0) =~= Seq::<FieldLayout>::empty());
        assert(fields_end(fields.take(0)) == 0);
        assert(fields[0].align > 0);
        assert(0int % (fields[0].align as int) == 0);
    } else {
        law_fields_in_order(fields, k - 1);
        law_fields_in_order(fields, k);
        let p = fields.take(k);
        assert(p.drop_last() =~= fields.take(k - 1));
        assert(p.last() == fields[k - 1]);
        lemma_prefix_end(fields, k);
        lemma_align_up(fields_end(fields.take(k)), fields[k].align as int);
    }
}

/// `x` rounded up to a multiple of `a`, when the result fits.
fn round_up(x: usize, a: usize) -> (r: usize)
    requires
        a > 0,
        align_up(x as int, a as int) <= usize::MAX,
    ensures
        r == align_up(x as int, a as int),
{
    let rem: usize = x % a;
    if rem == 0 {
        x
    } else {
        x + (a - rem)
    }
}

/// The offset of field `field` of a `#[repr(C)]` struct whose fields, in
/// declaration order, have the layouts `fields`.
pub fn offset_of(fields: &Vec<FieldLayout>, field: usize) -> (r: usize)
    requires
        field < fields@.len(),
        valid_fields(fields@),
    ensures
        r == field_offset(fields@, field as int),
{
    let mut end: usize = 0;
    let mut k: usize = 0;
    while k < field
        invariant
            k <= field < fields@.len(),
            valid_fields(fields@),
            end == fields_end(fields@.take(k as int)),
        decreases field - k,
    {
        let f = fields[k];
        proof {
            lemma_prefix_end(fields@, k + 1);
            let p = fields@.take(k + 1);
            assert(p.drop_last() =~= fields@.take(k as int));
            assert(p.last() == f);
            lemma_align_up(end as int, f.align as int);
        }
        let start: usize = round_up(end, f.align);
        end = start + f.size;
        k = k + 1;
    }
    proof {
        lemma_prefix_end(fields@, field + 1);
        let p = fields@.take(field + 1);
        assert(p.drop_last() =~= fields@.take(field as int));
        assert(p.last() == fields@[field as int]);
        lemma_prefix_end(fields@, field as int);
    }
    round_up(end, fields[field].align)
}

/// The address of the struct whose field `field` lies at `field_addr`.
pub fn container_of(field_addr: usize, fields: &Vec<FieldLayout>, field: usize) -> (r: usize)
    requires
        field < fields@.len(),
        valid_fields(fields@),
        field_addr >= field_offset(fields@, field as int),
    ensures
        r == field_addr - field_offset(fields@, field as int),
{
    field_addr - offset_of(fields, field)
}

} // verus!
