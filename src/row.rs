use vstd::prelude::*;
use vstd::arithmetic::div_mod::lemma_mod_breakdown;
use crate::bytes::{le_bytes, le_value, pow256, push_le, read_le, lemma_le_value_bound, lemma_pow256_values};
use crate::error::Error;
use crate::value::{int_of, is_integral, type_of, Value, ValueType};

verus! {

/// A column of a table: its name, its type and, for strings, its fixed
/// length in bytes.
#[derive(Debug, Clone)]
pub struct Column {
    pub name: Vec<u8>,
    pub ty: ValueType,
    pub len: u16,
}

/// A decoded row: one value per column, and the soft-deletion marker.
#[derive(Debug, Clone)]
pub struct Row {
    pub values: Vec<Value>,
    pub free: bool,
}

/// Stored width of a cell.
pub open spec fn width(ty: ValueType, len: u16) -> nat {
    match ty {
        ValueType::Null => 0,
        ValueType::Int8 | ValueType::UInt8 | ValueType::Boolean => 1,
        ValueType::Int16 | ValueType::UInt16 => 2,
        ValueType::Int32 | ValueType::UInt32 | ValueType::Float => 4,
        ValueType::Int64 | ValueType::UInt64 | ValueType::Double => 8,
        ValueType::String => len as nat,
    }
}

pub open spec fn no_nul(s: Seq<u8>) -> bool {
    forall|i: int| 0 <= i < s.len() ==> s[i] != 0
}

/// A cell of type `ty` can hold `v`: integer and boolean cells take integer
/// and boolean values, truncated to their width; float cells take a float of
/// their own width; string cells take text without a zero byte that fits.
pub open spec fn encodable(ty: ValueType, len: u16, v: Value) -> bool {
    match ty {
        ValueType::Null => true,
        ValueType::Float => v is Float,
        ValueType::Double => v is Double,
        ValueType::String => match v {
            Value::String(s) => s@.len() <= len && no_nul(s@),
            _ => false,
        },
        _ => is_integral(v),
    }
}

/// The bits of an integer value, modulo 2^64.
pub open spec fn raw_bits(v: Value) -> nat {
    (int_of(v) % 0x1_0000_0000_0000_0000) as nat
}

/// The bytes that a cell of type `ty` stores for `v`.
pub open spec fn cell_bytes(ty: ValueType, len: u16, v: Value) -> Seq<u8> {
    match ty {
        ValueType::Null => Seq::empty(),
        ValueType::Boolean => seq![if int_of(v) != 0 { 1u8 } else { 0u8 }],
        ValueType::Float => match v {
            Value::Float(b) => le_bytes(b as nat, 4),
            _ => Seq::empty(),
        },
        ValueType::Double => match v {
            Value::Double(b) => le_bytes(b as nat, 8),
            _ => Seq::empty(),
        },
        ValueType::String => match v {
            Value::String(s) => s@ + Seq::new((len - s@.len()) as nat, |i: int| 0u8),
            _ => Seq::empty(),
        },
        _ => le_bytes(raw_bits(v), width(ty, len)),
    }
}

/// `u`, read as a two's complement number of `bits` bits.
pub open spec fn signed(u: nat, bits: nat) -> int {
    if u >= pow2(bits) / 2 { u - pow2(bits) } else { u as int }
}

pub open spec fn pow2(bits: nat) -> nat {
    if bits == 8 { 0x100 } else if bits == 16 { 0x1_0000 } else if bits == 32 { 0x1_0000_0000 }
    else { 0x1_0000_0000_0000_0000 }
}

/// The bytes of `s` before its first zero byte.
pub open spec fn until_nul(s: Seq<u8>) -> Seq<u8>
    decreases s.len(),
{
    if s.len() == 0 || s[0] == 0 { Seq::empty() } else { seq![s[0]] + until_nul(s.drop_first()) }
}

/// The value that the bytes `b` of a cell of type `ty` hold.
pub open spec fn cell_value(ty: ValueType, b: Seq<u8>) -> Value {
    match ty {
        ValueType::Null => Value::Null,
        ValueType::Int8 => Value::Int8(signed(le_value(b), 8) as i8),
        ValueType::UInt8 => Value::UInt8(le_value(b) as u8),
        ValueType::Int16 => Value::Int16(signed(le_value(b), 16) as i16),
        ValueType::UInt16 => Value::UInt16(le_value(b) as u16),
        ValueType::Int32 => Value::Int32(signed(le_value(b), 32) as i32),
        ValueType::UInt32 => Value::UInt32(le_value(b) as u32),
        ValueType::Int64 => Value::Int64(signed(le_value(b), 64) as i64),
        ValueType::UInt64 => Value::UInt64(le_value(b) as u64),
        ValueType::Float => Value::Float(le_value(b) as u32),
        ValueType::Double => Value::Double(le_value(b) as u64),
        ValueType::Boolean => Value::Boolean(b[0] != 0),
        ValueType::String => Value::String(arbitrary()),
    }
}

/// Two values are the same: strings by their bytes, the rest as they are.
pub open spec fn same_value(a: Value, b: Value) -> bool {
    match (a, b) {
        (Value::String(x), Value::String(y)) => x@ == y@,
        (Value::String(_), _) => false,
        (_, Value::String(_)) => false,
        _ => a == b,
    }
}

/// The value that a cell of type `ty` decodes to, up to `same_value`.
pub open spec fn decodes_to(ty: ValueType, b: Seq<u8>, v: Value) -> bool {
    match ty {
        ValueType::String => match v {
            Value::String(s) => s@ == until_nul(b),
            _ => false,
        },
        _ => v == cell_value(ty, b),
    }
}

/// The width of a row's cells, without the marker byte.
pub open spec fn row_width(cols: Seq<Column>) -> nat
    decreases cols.len(),
{
    if cols.len() == 0 { 0 } else { width(cols[0].ty, cols[0].len) + row_width(cols.drop_first()) }
}

pub open spec fn cells_bytes(cols: Seq<Column>, vals: Seq<Value>) -> Seq<u8>
    decreases cols.len(),
{
    if cols.len() == 0 || vals.len() == 0 {
        Seq::empty()
    } else {
        cell_bytes(cols[0].ty, cols[0].len, vals[0]) + cells_bytes(cols.drop_first(), vals.drop_first())
    }
}

/// The stored form of a row: the marker byte, then each cell in column order.
pub open spec fn row_bytes(cols: Seq<Column>, vals: Seq<Value>, free: bool) -> Seq<u8> {
    seq![if free { 1u8 } else { 0u8 }] + cells_bytes(cols, vals)
}

/// Where the cell of column `i` starts, after the marker byte.
pub open spec fn cell_offset(cols: Seq<Column>, i: int) -> nat {
    1 + row_width(cols.take(i))
}

/// `vals` are what the stored row `b` holds.
pub open spec fn row_decodes_to(cols: Seq<Column>, b: Seq<u8>, vals: Seq<Value>, free: bool) -> bool {
    &&& free == (b[0] != 0)
    &&& vals.len() == cols.len()
    &&& forall|i: int| 0 <= i < cols.len() ==> decodes_to(cols[i].ty,
        #[trigger] b.subrange(cell_offset(cols, i) as int, (cell_offset(cols, i) + width(cols[i].ty, cols[i].len)) as int),
        vals[i])
}

/// Each value fits the cell of its column, and has that column's type.
pub open spec fn row_fits(cols: Seq<Column>, vals: Seq<Value>) -> bool {
    &&& vals.len() == cols.len()
    &&& forall|i: int| 0 <= i < cols.len() ==> encodable(cols[i].ty, cols[i].len, #[trigger] vals[i])
        && type_of(vals[i]) == cols[i].ty
}

pub proof fn lemma_le_truncate(v: nat, n: nat)
    ensures
        le_value(le_bytes(v, n)) == v % pow256(n),
        le_bytes(v, n).len() == n,
    decreases n,
{
    crate::bytes::lemma_le_bytes_len(v, n);
    if n > 0 {
        lemma_le_truncate(v / 256, (n - 1) as nat);
        let s = le_bytes(v, n);
        assert(s.drop_first() =~= le_bytes(v / 256, (n - 1) as nat));
        crate::bytes::lemma_pow256_pos((n - 1) as nat);
        lemma_mod_breakdown(v as int, 256, pow256((n - 1) as nat) as int);
    } else {
        assert(v % 1 == 0);
    }
}

/// A single cell decodes to the value it was encoded from.
pub proof fn lemma_cell_round_trip(ty: ValueType, len: u16, v: Value)
    requires
        encodable(ty, len, v),
        type_of(v) == ty,
    ensures
        cell_bytes(ty, len, v).len() == width(ty, len),
        ty != ValueType::Null ==> (match ty {
            ValueType::String => v is String && until_nul(cell_bytes(ty, len, v)) == v->String_0@,
            _ => cell_value(ty, cell_bytes(ty, len, v)) == v,
        }),
{
    lemma_pow256_values();
    reveal_with_fuel(pow256, 9);
    match v {
        Value::Int8(x) => {
            lemma_le_truncate(raw_bits(v), 1);
            assert(raw_bits(v) % 0x100 == (if x < 0 { x + 0x100 } else { x as int })) by (nonlinear_arith)
                requires raw_bits(v) == (x as int) % 0x1_0000_0000_0000_0000, -0x80 <= x < 0x80;
        },
        Value::UInt8(x) => {
            lemma_le_truncate(raw_bits(v), 1);
        },
        Value::Int16(x) => {
            lemma_le_truncate(raw_bits(v), 2);
            assert(raw_bits(v) % 0x1_0000 == (if x < 0 { x + 0x1_0000 } else { x as int })) by (nonlinear_arith)
                requires raw_bits(v) == (x as int) % 0x1_0000_0000_0000_0000, -0x8000 <= x < 0x8000;
        },
        Value::UInt16(x) => {
            lemma_le_truncate(raw_bits(v), 2);
        },
        Value::Int32(x) => {
            lemma_le_truncate(raw_bits(v), 4);
            assert(raw_bits(v) % 0x1_0000_0000 == (if x < 0 { x + 0x1_0000_0000 } else { x as int })) by (nonlinear_arith)
                requires raw_bits(v) == (x as int) % 0x1_0000_0000_0000_0000, -0x8000_0000 <= x < 0x8000_0000;
        },
        Value::UInt32(x) => {
            lemma_le_truncate(raw_bits(v), 4);
        },
        Value::Int64(x) => {
            lemma_le_truncate(raw_bits(v), 8);
            assert(raw_bits(v) % 0x1_0000_0000_0000_0000 == (if x < 0 { x + 0x1_0000_0000_0000_0000 } else { x as int })) by (nonlinear_arith)
                requires raw_bits(v) == (x as int) % 0x1_0000_0000_0000_0000, -0x8000_0000_0000_0000 <= x < 0x8000_0000_0000_0000;
        },
        Value::UInt64(x) => {
            lemma_le_truncate(raw_bits(v), 8);
        },
        Value::Float(b) => {
            lemma_le_truncate(b as nat, 4);
        },
        Value::Double(b) => {
            lemma_le_truncate(b as nat, 8);
        },
        Value::Boolean(_) => {},
        Value::Null => {},
        Value::String(s) => {
            if ty == ValueType::String {
                lemma_until_nul_padded(s@, (len - s@.len()) as nat);
            }
        },
    }
}

pub proof fn lemma_until_nul_padded(s: Seq<u8>, pad: nat)
    requires
        no_nul(s),
    ensures
        until_nul(s + Seq::new(pad, |i: int| 0u8)) == s,
    decreases s.len(),
{
    let z = Seq::new(pad, |i: int| 0u8);
    if s.len() == 0 {
        assert(s + z =~= z);
        if pad > 0 {
            assert(z[0] == 0);
        }
        assert(s =~= Seq::<u8>::empty());
    } else {
        lemma_until_nul_padded(s.drop_first(), pad);
        assert((s + z).drop_first() =~= s.drop_first() + z);
        assert(s =~= seq![s[0]] + s.drop_first());
    }
}


pub proof fn lemma_row_width_push(cols: Seq<Column>, c: Column)
    ensures
        row_width(cols.push(c)) == row_width(cols) + width(c.ty, c.len),
    decreases cols.len(),
{
    if cols.len() == 0 {
        assert(cols.push(c).drop_first() =~= cols);
    } else {
        lemma_row_width_push(cols.drop_first(), c);
        assert(cols.push(c).drop_first() =~= cols.drop_first().push(c));
    }
}

pub proof fn lemma_row_width_take(cols: Seq<Column>, i: int)
    requires
        0 <= i <= cols.len(),
    ensures
        row_width(cols.take(i)) <= row_width(cols),
    decreases cols.len() - i,
{
    if i < cols.len() {
        lemma_row_width_take(cols, i + 1);
        assert(cols.take(i + 1) =~= cols.take(i).push(cols[i]));
        lemma_row_width_push(cols.take(i), cols[i]);
    } else {
        assert(cols.take(i) =~= cols);
    }
}

pub proof fn lemma_prefix_bound(cols: Seq<Column>, i: int)
    requires
        0 <= i < cols.len(),
    ensures
        row_width(cols.take(i)) + width(cols[i].ty, cols[i].len) <= row_width(cols),
        row_width(cols.take(i + 1)) == row_width(cols.take(i)) + width(cols[i].ty, cols[i].len),
{
    assert(cols.take(i + 1) =~= cols.take(i).push(cols[i]));
    lemma_row_width_push(cols.take(i), cols[i]);
    lemma_row_width_take(cols, i + 1);
}

pub proof fn lemma_fits_rest(cols: Seq<Column>, vals: Seq<Value>)
    requires
        row_fits(cols, vals),
        cols.len() > 0,
    ensures
        row_fits(cols.drop_first(), vals.drop_first()),
{
    let rest_c = cols.drop_first();
    let rest_v = vals.drop_first();
    assert forall|k: int| 0 <= k < rest_c.len() implies encodable(rest_c[k].ty, rest_c[k].len, #[trigger] rest_v[k])
        && type_of(rest_v[k]) == rest_c[k].ty by {
        assert(rest_c[k] == cols[k + 1] && rest_v[k] == vals[k + 1]);
    }
}

pub proof fn lemma_cells_len(cols: Seq<Column>, vals: Seq<Value>)
    requires
        row_fits(cols, vals),
    ensures
        cells_bytes(cols, vals).len() == row_width(cols),
    decreases cols.len(),
{
    if cols.len() > 0 {
        lemma_cell_round_trip(cols[0].ty, cols[0].len, vals[0]);
        lemma_fits_rest(cols, vals);
        lemma_cells_len(cols.drop_first(), vals.drop_first());
    }
}

/// The cells before column `i` take `row_width(cols.take(i))` bytes, and
/// column `i` follows them.
pub proof fn lemma_cells_at(cols: Seq<Column>, vals: Seq<Value>, i: int)
    requires
        row_fits(cols, vals),
        0 <= i < cols.len(),
    ensures
        cells_bytes(cols, vals).len() == row_width(cols),
        cells_bytes(cols, vals).subrange(row_width(cols.take(i)) as int,
            (row_width(cols.take(i)) + width(cols[i].ty, cols[i].len)) as int)
            == cell_bytes(cols[i].ty, cols[i].len, vals[i]),
    decreases cols.len(),
{
    lemma_cells_len(cols, vals);
    lemma_cell_round_trip(cols[0].ty, cols[0].len, vals[0]);
    lemma_fits_rest(cols, vals);
    let rest_c = cols.drop_first();
    let rest_v = vals.drop_first();
    lemma_cells_len(rest_c, rest_v);
    let first = cell_bytes(cols[0].ty, cols[0].len, vals[0]);
    assert(cells_bytes(cols, vals) == first + cells_bytes(rest_c, rest_v));
    if i == 0 {
        assert(cols.take(0) =~= Seq::<Column>::empty());
        assert(row_width(cols.take(0)) == 0);
        assert(cells_bytes(cols, vals).subrange(0, width(cols[0].ty, cols[0].len) as int) =~= first);
    } else {
        lemma_cells_at(rest_c, rest_v, i - 1);
        assert(cols.take(i).drop_first() =~= rest_c.take(i - 1));
        assert(cols.take(i)[0] == cols[0]);
        assert(rest_c[i - 1] == cols[i] && rest_v[i - 1] == vals[i]);
        let o = row_width(rest_c.take(i - 1)) as int;
        let w = width(cols[i].ty, cols[i].len) as int;
        lemma_prefix_bound(rest_c, i - 1);
        assert(row_width(cols.take(i)) == first.len() + o);
        assert(cells_bytes(cols, vals).subrange(first.len() + o, first.len() + o + w)
            =~= cells_bytes(rest_c, rest_v).subrange(o, o + w));
    }
}

/// A row that fits its columns decodes to the values it was encoded from.
pub proof fn law_row_round_trip(cols: Seq<Column>, vals: Seq<Value>, free: bool, back: Seq<Value>, back_free: bool)
    requires
        row_fits(cols, vals),
        row_decodes_to(cols, row_bytes(cols, vals, free), back, back_free),
    ensures
        back_free == free,
        back.len() == vals.len(),
        forall|i: int| 0 <= i < vals.len() ==> same_value(#[trigger] back[i], vals[i]),
{
    let b = row_bytes(cols, vals, free);
    assert(b[0] == (if free { 1u8 } else { 0u8 }));
    assert forall|i: int| 0 <= i < vals.len() implies same_value(#[trigger] back[i], vals[i]) by {
        lemma_cells_at(cols, vals, i);
        lemma_cell_round_trip(cols[i].ty, cols[i].len, vals[i]);
        let o = row_width(cols.take(i)) as int;
        let w = width(cols[i].ty, cols[i].len) as int;
        lemma_prefix_bound(cols, i);
        assert(b.subrange(1 + o, 1 + o + w) =~= cells_bytes(cols, vals).subrange(o, o + w));
        assert(decodes_to(cols[i].ty, b.subrange(cell_offset(cols, i) as int,
            (cell_offset(cols, i) + width(cols[i].ty, cols[i].len)) as int), back[i]));
        assert(b.subrange(cell_offset(cols, i) as int, (cell_offset(cols, i) + width(cols[i].ty, cols[i].len)) as int)
            == cell_bytes(cols[i].ty, cols[i].len, vals[i]));
    }
}


fn to_i8(u: u8) -> (r: i8)
    ensures
        r == signed(u as nat, 8),
{
    if u >= 0x80 { ((u - 0x80) as i8) + i8::MIN } else { u as i8 }
}

fn to_i16(u: u16) -> (r: i16)
    ensures
        r == signed(u as nat, 16),
{
    if u >= 0x8000 { ((u - 0x8000) as i16) + i16::MIN } else { u as i16 }
}

fn to_i32(u: u32) -> (r: i32)
    ensures
        r == signed(u as nat, 32),
{
    if u >= 0x8000_0000 { ((u - 0x8000_0000) as i32) + i32::MIN } else { u as i32 }
}

fn to_i64(u: u64) -> (r: i64)
    ensures
        r == signed(u as nat, 64),
{
    if u >= 0x8000_0000_0000_0000 { ((u - 0x8000_0000_0000_0000) as i64) + i64::MIN } else { u as i64 }
}

/// The stored width of a column's cells.
pub fn column_width(col: &Column) -> (r: usize)
    ensures
        r == width(col.ty, col.len),
{
    match col.ty {
        ValueType::Null => 0,
        ValueType::Int8 | ValueType::UInt8 | ValueType::Boolean => 1,
        ValueType::Int16 | ValueType::UInt16 => 2,
        ValueType::Int32 | ValueType::UInt32 | ValueType::Float => 4,
        ValueType::Int64 | ValueType::UInt64 | ValueType::Double => 8,
        ValueType::String => col.len as usize,
    }
}

/// Appends the cell that column `col` stores for `v`, converting integers and
/// booleans to the column's width; a value that the column cannot hold is a
/// `TypeError`.
pub fn encode_cell(col: &Column, v: &Value, out: &mut Vec<u8>) -> (r: Result<(), Error>)
    ensures
        r is Ok <==> encodable(col.ty, col.len, *v),
        r is Ok ==> final(out)@ == old(out)@ + cell_bytes(col.ty, col.len, *v),
        r is Err ==> r == Err::<(), Error>(Error::TypeError) && final(out)@ == old(out)@,
{
    proof { lemma_pow256_values(); }
    match col.ty {
        ValueType::Null => {
            assert(out@ =~= old(out)@ + Seq::<u8>::empty());
            Ok(())
        },
        ValueType::Float => match v {
            Value::Float(b) => {
                push_le(out, *b as u64, 4);
                Ok(())
            },
            _ => Err(Error::TypeError),
        },
        ValueType::Double => match v {
            Value::Double(b) => {
                push_le(out, *b, 8);
                Ok(())
            },
            _ => Err(Error::TypeError),
        },
        ValueType::String => match v {
            Value::String(s) => {
                if s.len() > col.len as usize {
                    return Err(Error::TypeError);
                }
                let mut i: usize = 0;
                while i < s.len()
                    invariant
                        *v == Value::String(*s),
                        col.ty == ValueType::String,
                        i <= s@.len(),
                        forall|k: int| 0 <= k < i ==> s@[k] != 0,
                    decreases s@.len() - i,
                {
                    if s[i] == 0 {
                        assert(s@[i as int] == 0);
                        assert(!no_nul(s@));
                        assert(v->String_0@ == s@);
                        assert(!encodable(col.ty, col.len, *v));
                        return Err(Error::TypeError);
                    }
                    i = i + 1;
                }
                let ghost start = out@;
                let mut j: usize = 0;
                while j < s.len()
                    invariant
                        j <= s@.len(),
                        out@ == start + s@.subrange(0, j as int),
                    decreases s@.len() - j,
                {
                    out.push(s[j]);
                    j = j + 1;
                    assert(out@ =~= start + s@.subrange(0, j as int));
                }
                assert(s@.subrange(0, j as int) =~= s@);
                let pad = col.len as usize - s.len();
                let mut k: usize = 0;
                while k < pad
                    invariant
                        k <= pad,
                        out@ == start + s@ + Seq::new(k as nat, |q: int| 0u8),
                    decreases pad - k,
                {
                    out.push(0u8);
                    k = k + 1;
                    assert(out@ =~= start + s@ + Seq::new(k as nat, |q: int| 0u8));
                }
                assert(out@ =~= old(out)@ + cell_bytes(col.ty, col.len, *v));
                Ok(())
            },
            _ => Err(Error::TypeError),
        },
        ValueType::Boolean => match v {
            Value::Float(_) | Value::Double(_) | Value::String(_) => Err(Error::TypeError),
            _ => {
                out.push(if v.as_bool() { 1u8 } else { 0u8 });
                Ok(())
            },
        },
        _ => match v {
            Value::Float(_) | Value::Double(_) | Value::String(_) => Err(Error::TypeError),
            _ => {
                let raw = v.as_u64();
                assert(raw as nat == raw_bits(*v)) by (nonlinear_arith)
                    requires
                        raw as int == (if int_of(*v) < 0 { int_of(*v) + 0x1_0000_0000_0000_0000 } else { int_of(*v) }),
                        -0x8000_0000_0000_0000 <= int_of(*v) < 0x1_0000_0000_0000_0000,
                        raw_bits(*v) == (int_of(*v) % 0x1_0000_0000_0000_0000) as nat;
                push_le(out, raw, column_width(col));
                Ok(())
            },
        },
    }
}

/// The value held by the cell of column `col` at `off` in `b`.
pub fn decode_cell(col: &Column, b: &[u8], off: usize) -> (r: Value)
    requires
        off + width(col.ty, col.len) <= b@.len(),
    ensures
        decodes_to(col.ty, b@.subrange(off as int, off + width(col.ty, col.len)), r),
{
    let w = column_width(col);
    let len = b.len();
    proof {
        lemma_pow256_values();
        reveal_with_fuel(pow256, 9);
        lemma_le_value_bound(b@.subrange(off as int, off + w));
    }
    match col.ty {
        ValueType::Null => Value::Null,
        ValueType::Int8 => Value::Int8(to_i8(read_le(b, off, 1) as u8)),
        ValueType::UInt8 => Value::UInt8(read_le(b, off, 1) as u8),
        ValueType::Int16 => Value::Int16(to_i16(read_le(b, off, 2) as u16)),
        ValueType::UInt16 => Value::UInt16(read_le(b, off, 2) as u16),
        ValueType::Int32 => Value::Int32(to_i32(read_le(b, off, 4) as u32)),
        ValueType::UInt32 => Value::UInt32(read_le(b, off, 4) as u32),
        ValueType::Int64 => Value::Int64(to_i64(read_le(b, off, 8))),
        ValueType::UInt64 => Value::UInt64(read_le(b, off, 8)),
        ValueType::Float => Value::Float(read_le(b, off, 4) as u32),
        ValueType::Double => Value::Double(read_le(b, off, 8)),
        ValueType::Boolean => Value::Boolean(b[off] != 0),
        ValueType::String => {
            let ghost cell = b@.subrange(off as int, off + w);
            let mut out: Vec<u8> = Vec::new();
            let mut i: usize = 0;
            while i < w && b[off + i] != 0
                invariant
                    off + w <= len == b@.len(),
                    cell == b@.subrange(off as int, off + w),
                    i <= w,
                    out@ == cell.subrange(0, i as int),
                    forall|k: int| 0 <= k < i ==> cell[k] != 0,
                decreases w - i,
            {
                out.push(b[off + i]);
                i = i + 1;
                assert(out@ =~= cell.subrange(0, i as int));
            }
            proof { lemma_until_nul_prefix(cell, i as int); }
            Value::String(out)
        },
    }
}

/// A prefix without zero bytes, ending at the end or at a zero byte, is what
/// `until_nul` keeps.
pub proof fn lemma_until_nul_prefix(s: Seq<u8>, i: int)
    requires
        0 <= i <= s.len(),
        forall|k: int| 0 <= k < i ==> s[k] != 0,
        i == s.len() || s[i] == 0,
    ensures
        until_nul(s) == s.subrange(0, i),
    decreases s.len(),
{
    if s.len() == 0 || s[0] == 0 {
        assert(s.subrange(0, i) =~= Seq::<u8>::empty());
    } else {
        lemma_until_nul_prefix(s.drop_first(), i - 1);
        assert(s.subrange(0, i) =~= seq![s[0]] + s.drop_first().subrange(0, i - 1));
    }
}

/// The number of bytes the cells of `cols` take, if it fits.
pub fn row_size_of(cols: &Vec<Column>) -> (r: Option<usize>)
    ensures
        r matches Some(n) ==> n == row_width(cols@),
        r is None ==> row_width(cols@) >= usize::MAX,
{
    let mut total: usize = 0;
    let mut i: usize = 0;
    while i < cols.len()
        invariant
            i <= cols@.len(),
            total == row_width(cols@.take(i as int)),
        decreases cols@.len() - i,
    {
        proof { lemma_prefix_bound(cols@, i as int); }
        let w = column_width(&cols[i]);
        if w >= usize::MAX - total {
            proof { lemma_row_width_take(cols@, i + 1); }
            return None;
        }
        total = total + w;
        i = i + 1;
    }
    assert(cols@.take(i as int) =~= cols@);
    Some(total)
}

/// The stored form of `row`: its marker byte, then each cell.
pub fn encode_row(cols: &Vec<Column>, row: &Row) -> (r: Result<Vec<u8>, Error>)
    ensures
        r is Ok <==> (row.values@.len() == cols@.len()
            && forall|i: int| 0 <= i < cols@.len() ==> encodable(cols@[i].ty, cols@[i].len, #[trigger] row.values@[i])),
        r matches Ok(b) ==> b@ == row_bytes(cols@, row.values@, row.free),
        r is Err ==> r == Err::<Vec<u8>, Error>(Error::TypeError),
{
    if row.values.len() != cols.len() {
        return Err(Error::TypeError);
    }
    let mut out: Vec<u8> = Vec::new();
    out.push(if row.free { 1u8 } else { 0u8 });
    assert(cols@.skip(0) =~= cols@);
    assert(row.values@.skip(0) =~= row.values@);
    let mut i: usize = 0;
    while i < cols.len()
        invariant
            row.values@.len() == cols@.len(),
            i <= cols@.len(),
            forall|k: int| 0 <= k < i ==> encodable(cols@[k].ty, cols@[k].len, #[trigger] row.values@[k]),
            out@ + cells_bytes(cols@.skip(i as int), row.values@.skip(i as int))
                == row_bytes(cols@, row.values@, row.free),
        decreases cols@.len() - i,
    {
        let ghost before = out@;
        match encode_cell(&cols[i], &row.values[i], &mut out) {
            Ok(()) => {},
            Err(e) => return Err(e),
        }
        assert(cols@.skip(i as int).drop_first() =~= cols@.skip(i + 1));
        assert(row.values@.skip(i as int).drop_first() =~= row.values@.skip(i + 1));
        assert(out@ + cells_bytes(cols@.skip(i + 1), row.values@.skip(i + 1))
            =~= before + cells_bytes(cols@.skip(i as int), row.values@.skip(i as int)));
        i = i + 1;
    }
    assert(cols@.skip(i as int) =~= Seq::<Column>::empty());
    assert(out@ =~= row_bytes(cols@, row.values@, row.free));
    Ok(out)
}

/// The row stored at `off` in `b`.
pub fn decode_row(cols: &Vec<Column>, b: &[u8], off: usize) -> (r: Row)
    requires
        off + 1 + row_width(cols@) <= b@.len(),
    ensures
        row_decodes_to(cols@, b@.subrange(off as int, off + 1 + row_width(cols@)), r.values@, r.free),
{
    let ghost whole = b@.subrange(off as int, off + 1 + row_width(cols@));
    let free = b[off] != 0;
    let mut values: Vec<Value> = Vec::new();
    let mut at: usize = off + 1;
    let mut i: usize = 0;
    let len = b.len();
    while i < cols.len()
        invariant
            off + 1 + row_width(cols@) <= len == b@.len(),
            whole == b@.subrange(off as int, off + 1 + row_width(cols@)),
            i <= cols@.len(),
            values@.len() == i,
            at == off + cell_offset(cols@, i as int),
            forall|k: int| 0 <= k < i ==> decodes_to(cols@[k].ty,
                #[trigger] whole.subrange(cell_offset(cols@, k) as int, (cell_offset(cols@, k) + width(cols@[k].ty, cols@[k].len)) as int),
                values@[k]),
        decreases cols@.len() - i,
    {
        proof { lemma_prefix_bound(cols@, i as int); }
        let w = column_width(&cols[i]);
        let v = decode_cell(&cols[i], b, at);
        proof {
            let o = cell_offset(cols@, i as int) as int;
            assert(whole.subrange(o, o + w) =~= b@.subrange(at as int, at + w));
        }
        values.push(v);
        at = at + w;
        i = i + 1;
    }
    Row { values, free }
}


pub proof fn lemma_row_width_append(a: Seq<Column>, b: Seq<Column>)
    ensures
        row_width(a + b) == row_width(a) + row_width(b),
    decreases a.len(),
{
    if a.len() == 0 {
        assert(a + b =~= b);
    } else {
        lemma_row_width_append(a.drop_first(), b);
        assert((a + b).drop_first() =~= a.drop_first() + b);
    }
}

/// Removing a column takes its width off the row.
pub proof fn lemma_row_width_remove(cols: Seq<Column>, i: int)
    requires
        0 <= i < cols.len(),
    ensures
        row_width(cols.remove(i)) + width(cols[i].ty, cols[i].len) == row_width(cols),
{
    let a = cols.take(i);
    let b = cols.skip(i + 1);
    assert(cols.remove(i) =~= a + b);
    assert(cols =~= a + (seq![cols[i]] + b));
    lemma_row_width_append(a, b);
    lemma_row_width_append(a, seq![cols[i]] + b);
    lemma_row_width_append(seq![cols[i]], b);
    assert(seq![cols[i]].drop_first() =~= Seq::<Column>::empty());
    assert(row_width(Seq::<Column>::empty()) == 0);
    assert(row_width(seq![cols[i]]) == width(cols[i].ty, cols[i].len) + row_width(seq![cols[i]].drop_first()));
}


/// Each value fits the cell of its column, after conversion.
pub open spec fn row_encodable(cols: Seq<Column>, vals: Seq<Value>) -> bool {
    &&& vals.len() == cols.len()
    &&& forall|i: int| 0 <= i < cols.len() ==> encodable(cols[i].ty, cols[i].len, #[trigger] vals[i])
}

/// An encodable row's cells take exactly the row width.
pub proof fn lemma_encoded_len(cols: Seq<Column>, vals: Seq<Value>)
    requires
        row_encodable(cols, vals),
    ensures
        cells_bytes(cols, vals).len() == row_width(cols),
    decreases cols.len(),
{
    if cols.len() > 0 {
        let c = cols[0];
        let v = vals[0];
        assert(encodable(c.ty, c.len, v));
        crate::bytes::lemma_le_bytes_len(raw_bits(v), width(c.ty, c.len));
        match v {
            Value::Float(b) => { crate::bytes::lemma_le_bytes_len(b as nat, 4); },
            Value::Double(b) => { crate::bytes::lemma_le_bytes_len(b as nat, 8); },
            _ => {},
        }
        assert(cell_bytes(c.ty, c.len, v).len() == width(c.ty, c.len));
        let rc = cols.drop_first();
        let rv = vals.drop_first();
        assert forall|k: int| 0 <= k < rc.len() implies encodable(rc[k].ty, rc[k].len, #[trigger] rv[k]) by {
            assert(rc[k] == cols[k + 1] && rv[k] == vals[k + 1]);
        }
        lemma_encoded_len(rc, rv);
    }
}

} // verus!
