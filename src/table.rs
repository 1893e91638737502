use vstd::prelude::*;
use crate::bytes::{le_bytes, le_value, pow256, push_le, read_le, lemma_le_value_bound, lemma_pow256_values};
use crate::container::{Container, Handle};
use crate::error::{Error, IoErrorKind};
use crate::options::SectionOptions;
use crate::row::{
    column_width, decode_row, encode_row, row_bytes, row_decodes_to, row_encodable, row_size_of, row_width,
    until_nul, lemma_until_nul_prefix, Column, Row,
};
use crate::section::{write_at, CSeekFrom};
use crate::value::{Value, ValueType};

verus! {

/// Size of the fixed part of a schema block: the name offset and the column
/// count.
pub const SCHEMA_HEAD: usize = 6;
/// Size of one column record in a schema block.
pub const SCHEMA_COLUMN: usize = 7;

/// A fixed-width row store. Its data section starts with a schema block
/// (the offset of the table name in the strings section, the column count,
/// and per column the offset of its name, its type code and its length),
/// followed by the rows; row `i` starts `i * actual_row_size` bytes after the
/// schema block. Names are kept NUL-terminated in the strings section.
pub struct Table {
    handle: Handle,
    strings: Handle,
    name: Vec<u8>,
    name_offset: u32,
    columns: Vec<Column>,
    name_offsets: Vec<u32>,
    row_size: usize,
}

pub open spec fn type_code(t: ValueType) -> u8 {
    match t {
        ValueType::Null => 0,
        ValueType::Int8 => 1,
        ValueType::UInt8 => 2,
        ValueType::Int16 => 3,
        ValueType::UInt16 => 4,
        ValueType::Int32 => 5,
        ValueType::UInt32 => 6,
        ValueType::Int64 => 7,
        ValueType::UInt64 => 8,
        ValueType::Float => 9,
        ValueType::Double => 10,
        ValueType::Boolean => 11,
        ValueType::String => 12,
    }
}

fn code_of(t: ValueType) -> (r: u8)
    ensures
        r == type_code(t),
{
    match t {
        ValueType::Null => 0,
        ValueType::Int8 => 1,
        ValueType::UInt8 => 2,
        ValueType::Int16 => 3,
        ValueType::UInt16 => 4,
        ValueType::Int32 => 5,
        ValueType::UInt32 => 6,
        ValueType::Int64 => 7,
        ValueType::UInt64 => 8,
        ValueType::Float => 9,
        ValueType::Double => 10,
        ValueType::Boolean => 11,
        ValueType::String => 12,
    }
}

fn type_of_code(c: u8) -> (r: Option<ValueType>)
    ensures
        r matches Some(t) ==> type_code(t) == c,
        c <= 12 ==> r is Some,
{
    match c {
        0 => Some(ValueType::Null),
        1 => Some(ValueType::Int8),
        2 => Some(ValueType::UInt8),
        3 => Some(ValueType::Int16),
        4 => Some(ValueType::UInt16),
        5 => Some(ValueType::Int32),
        6 => Some(ValueType::UInt32),
        7 => Some(ValueType::Int64),
        8 => Some(ValueType::UInt64),
        9 => Some(ValueType::Float),
        10 => Some(ValueType::Double),
        11 => Some(ValueType::Boolean),
        12 => Some(ValueType::String),
        _ => None,
    }
}

/// The seven bytes that describe one column in a schema block.
pub open spec fn column_record(off: u32, col: Column) -> Seq<u8> {
    le_bytes(off as nat, 4) + seq![type_code(col.ty)] + le_bytes(col.len as nat, 2)
}

pub open spec fn column_records(offs: Seq<u32>, cols: Seq<Column>) -> Seq<u8>
    decreases cols.len(),
{
    if cols.len() == 0 || offs.len() == 0 {
        Seq::empty()
    } else {
        column_records(offs.drop_last(), cols.drop_last()) + column_record(offs.last(), cols.last())
    }
}

/// `v` is the zero of type `t`: 0, false, the zero bit pattern, or the
/// empty string.
pub open spec fn is_zero_of(v: Value, t: ValueType) -> bool {
    match t {
        ValueType::Null => v == Value::Null,
        ValueType::Int8 => v == Value::Int8(0),
        ValueType::UInt8 => v == Value::UInt8(0),
        ValueType::Int16 => v == Value::Int16(0),
        ValueType::UInt16 => v == Value::UInt16(0),
        ValueType::Int32 => v == Value::Int32(0),
        ValueType::UInt32 => v == Value::UInt32(0),
        ValueType::Int64 => v == Value::Int64(0),
        ValueType::UInt64 => v == Value::UInt64(0),
        ValueType::Float => v == Value::Float(0),
        ValueType::Double => v == Value::Double(0),
        ValueType::Boolean => v == Value::Boolean(false),
        ValueType::String => v matches Value::String(x) && x@.len() == 0,
    }
}

pub proof fn lemma_records_len(offs: Seq<u32>, cols: Seq<Column>)
    requires
        offs.len() == cols.len(),
    ensures
        column_records(offs, cols).len() == 7 * cols.len(),
    decreases cols.len(),
{
    if cols.len() > 0 {
        lemma_records_len(offs.drop_last(), cols.drop_last());
        crate::bytes::lemma_le_bytes_len(offs.last() as nat, 4);
        crate::bytes::lemma_le_bytes_len(cols.last().len as nat, 2);
    }
}

/// The cell width of the type with code `code`.
pub open spec fn code_width(code: u8, len: nat) -> nat {
    if code == 0 { 0 }
    else if code == 1 || code == 2 || code == 11 { 1 }
    else if code == 3 || code == 4 { 2 }
    else if code == 5 || code == 6 || code == 9 { 4 }
    else if code == 7 || code == 8 || code == 10 { 8 }
    else { len }
}

/// Where column record `k` starts in a schema block.
pub open spec fn record_at(k: int) -> int {
    6 + 7 * k
}

/// The row width that the first `k` column records of schema block `b`
/// describe.
pub open spec fn schema_row_width(b: Seq<u8>, k: nat) -> nat
    decreases k,
{
    if k == 0 {
        0
    } else {
        let o = record_at(k - 1);
        schema_row_width(b, (k - 1) as nat) + code_width(b[o + 4], le_value(b.subrange(o + 5, o + 7)))
    }
}

/// `b` starts with a schema block that can be read against strings section
/// bytes `sb`: it is whole, its type codes are known, its name offsets lie in
/// `sb`, and the rows it describes fit.
pub open spec fn schema_ok(b: Seq<u8>, sb: Seq<u8>) -> bool {
    let n = le_value(b.subrange(4, 6));
    &&& b.len() >= 6
    &&& b.len() >= 6 + 7 * n
    &&& le_value(b.subrange(0, 4)) <= sb.len()
    &&& forall|k: int| 0 <= k < n ==> #[trigger] b[record_at(k) + 4] <= 12
        && le_value(b.subrange(record_at(k), record_at(k) + 4)) <= sb.len()
    &&& schema_row_width(b, n) + 1 + schema_len(n) <= u32::MAX
}

pub proof fn lemma_code_width(t: ValueType, len: u16)
    ensures
        code_width(type_code(t), len as nat) == crate::row::width(t, len),
{
}

pub open spec fn schema_len(ncols: nat) -> nat {
    6 + 7 * ncols
}

/// First position of `name` among the column names, or -1.
pub open spec fn first_column(cols: Seq<Column>, name: Seq<u8>) -> int
    decreases cols.len(),
{
    if cols.len() == 0 {
        -1
    } else if cols[0].name@ == name {
        0
    } else {
        let r = first_column(cols.drop_first(), name);
        if r < 0 { -1 } else { r + 1 }
    }
}

/// Byte strings equal by content.
fn bytes_eq(a: &[u8], b: &[u8]) -> (r: bool)
    ensures
        r == (a@ == b@),
{
    if a.len() != b.len() {
        return false;
    }
    let mut i: usize = 0;
    while i < a.len()
        invariant
            a@.len() == b@.len(),
            i <= a@.len(),
            forall|k: int| 0 <= k < i ==> a@[k] == b@[k],
        decreases a@.len() - i,
    {
        if a[i] != b[i] {
            return false;
        }
        i = i + 1;
    }
    assert(a@ =~= b@);
    true
}

/// Position of the first column called `name`; not finding it is `None`,
/// distinct from any failure.
pub fn find_column(cols: &Vec<Column>, name: &[u8]) -> (r: Option<usize>)
    ensures
        match r {
            Some(i) => i as int == first_column(cols@, name@),
            None => first_column(cols@, name@) == -1,
        },
{
    let mut i: usize = 0;
    while i < cols.len()
        invariant
            i <= cols@.len(),
            forall|k: int| 0 <= k < i ==> cols@[k].name@ != name@,
        decreases cols@.len() - i,
    {
        if bytes_eq(cols[i].name.as_slice(), name) {
            proof { lemma_first_column(cols@, name@, i as int); }
            return Some(i);
        }
        i = i + 1;
    }
    proof { lemma_first_column(cols@, name@, cols@.len() as int); }
    None
}

proof fn lemma_first_column(cols: Seq<Column>, name: Seq<u8>, i: int)
    requires
        0 <= i <= cols.len(),
        forall|k: int| 0 <= k < i ==> cols[k].name@ != name,
    ensures
        i < cols.len() && cols[i].name@ == name ==> first_column(cols, name) == i,
        i == cols.len() ==> first_column(cols, name) == -1,
    decreases cols.len(),
{
    if cols.len() > 0 {
        if i > 0 {
            lemma_first_column(cols.drop_first(), name, i - 1);
        } else if i == cols.len() {
        }
    }
}

impl Table {
    pub closed spec fn wf(&self) -> bool {
        &&& self.row_size == row_width(self.columns@)
        &&& self.row_size + 1 + schema_len(self.columns@.len()) <= u32::MAX
        &&& self.name_offsets@.len() == self.columns@.len()
        &&& self.columns@.len() <= 0xFFFF
        &&& self.handle.raw != self.strings.raw
    }

    pub closed spec fn data(&self) -> u32 {
        self.handle.raw
    }

    pub closed spec fn cols(&self) -> Seq<Column> {
        self.columns@
    }

    /// Where the rows start in the data section.
    pub open spec fn rows_start(&self) -> nat {
        schema_len(self.cols().len())
    }

    pub open spec fn stride(&self) -> nat {
        row_width(self.cols()) + 1
    }

    /// The number of whole row slots in data section bytes `b`, free rows
    /// included; a partial trailing row is not counted.
    pub open spec fn count_in(&self, b: Seq<u8>) -> nat {
        if b.len() < self.rows_start() { 0 } else { ((b.len() - self.rows_start()) as nat / self.stride()) as nat }
    }

    /// The schema block that this table writes at the start of its section.
    pub closed spec fn schema_of(&self) -> Seq<u8> {
        le_bytes(self.name_offset as nat, 4) + le_bytes(self.columns@.len(), 2)
            + column_records(self.name_offsets@, self.columns@)
    }

    /// The schema block takes `schema_len` bytes, where the rows start.
    pub proof fn lemma_schema_len(&self)
        requires
            self.wf(),
        ensures
            self.schema_of().len() == schema_len(self.cols().len()),
            self.schema_of().len() == self.rows_start(),
    {
        lemma_records_len(self.name_offsets@, self.columns@);
        crate::bytes::lemma_le_bytes_len(self.name_offset as nat, 4);
        crate::bytes::lemma_le_bytes_len(self.columns@.len(), 2);
    }

    /// Where the table's name starts in the strings section.
    pub closed spec fn name_ref(&self) -> u32 {
        self.name_offset
    }

    /// Where the name of column `k` starts in the strings section.
    pub closed spec fn column_name_ref(&self, k: int) -> u32 {
        self.name_offsets@[k]
    }

    pub closed spec fn strings_section(&self) -> u32 {
        self.strings.raw
    }

    pub closed spec fn table_name(&self) -> Seq<u8> {
        self.name@
    }

    /// The name of the table.
    pub fn name(&self) -> (r: &Vec<u8>)
        ensures
            r@ == self.table_name(),
    {
        &self.name
    }

    /// The data section of the table.
    pub fn handle(&self) -> (r: Handle)
        ensures
            r.raw == self.data(),
    {
        self.handle
    }

    pub fn columns(&self) -> (r: &Vec<Column>)
        ensures
            r@ == self.cols(),
    {
        &self.columns
    }

    /// The width of a row's cells.
    pub fn row_size(&self) -> (r: usize)
        requires
            self.wf(),
        ensures
            r == row_width(self.cols()),
    {
        self.row_size
    }

    /// The stored width of a row: its cells and the marker byte.
    pub fn actual_row_size(&self) -> (r: usize)
        requires
            self.wf(),
        ensures
            r == self.stride(),
    {
        self.row_size + 1
    }

    /// The position of the first column called `name`.
    pub fn column_index(&self, name: &[u8]) -> (r: Option<usize>)
        ensures
            match r {
                Some(i) => i as int == first_column(self.cols(), name@),
                None => first_column(self.cols(), name@) == -1,
            },
    {
        find_column(&self.columns, name)
    }

    /// A blank row for this table: a zero of each column's type, and not free.
    pub fn alloc_row(&self) -> (r: Row)
        ensures
            r.values@.len() == self.cols().len(),
            !r.free,
            forall|i: int| 0 <= i < r.values@.len() ==> crate::value::type_of(#[trigger] r.values@[i]) == self.cols()[i].ty,
            forall|i: int| 0 <= i < r.values@.len() ==> is_zero_of(#[trigger] r.values@[i], self.cols()[i].ty),
    {
        let mut values: Vec<Value> = Vec::new();
        let mut i: usize = 0;
        while i < self.columns.len()
            invariant
                i <= self.columns@.len(),
                values@.len() == i,
                forall|k: int| 0 <= k < i ==> crate::value::type_of(#[trigger] values@[k]) == self.columns@[k].ty,
                forall|k: int| 0 <= k < i ==> is_zero_of(#[trigger] values@[k], self.columns@[k].ty),
            decreases self.columns@.len() - i,
        {
            let v = match self.columns[i].ty {
                ValueType::Null => Value::Null,
                ValueType::Int8 => Value::Int8(0),
                ValueType::UInt8 => Value::UInt8(0),
                ValueType::Int16 => Value::Int16(0),
                ValueType::UInt16 => Value::UInt16(0),
                ValueType::Int32 => Value::Int32(0),
                ValueType::UInt32 => Value::UInt32(0),
                ValueType::Int64 => Value::Int64(0),
                ValueType::UInt64 => Value::UInt64(0),
                ValueType::Float => Value::Float(0),
                ValueType::Double => Value::Double(0),
                ValueType::Boolean => Value::Boolean(false),
                ValueType::String => Value::String(Vec::new()),
            };
            values.push(v);
            i = i + 1;
        }
        Row { values, free: false }
    }

    /// The number of row slots, free ones included.
    pub fn count(&self, c: &mut Container) -> (r: Result<usize, Error>)
        requires
            self.wf(),
            old(c).wf(),
        ensures
            final(c).wf(),
            final(c).handles_same(old(c)),
            r is Err ==> *final(c) == *old(c),
            old(c).index_of(self.data()) == -1 ==> r == Err::<usize, Error>(Error::NotFound),
            old(c).index_of(self.data()) >= 0 && old(c).loadable_at(old(c).index_of(self.data())) ==> r is Ok,
            r matches Ok(n) ==> {
                let i = old(c).index_of(self.data());
                &&& i >= 0
                &&& n == self.count_in(old(c).bytes_at(i))
                &&& final(c).same_but(old(c), i)
                &&& final(c).bytes_at(i) == old(c).bytes_at(i)
                &&& final(c).pos_at(i) == old(c).pos_at(i)
                &&& final(c).loaded_at(i)
            },
    {
        proof { old(c).lemma_handles(self.handle.raw); }
        let size = match c.section_size(self.handle) {
            Ok(s) => s,
            Err(e) => return Err(e),
        };
        let start = SCHEMA_HEAD + SCHEMA_COLUMN * self.columns.len();
        let ghost b = old(c).bytes_at(old(c).index_of(self.data()));
        assert(start == self.rows_start());
        assert(size == b.len());
        if size < start {
            Ok(0)
        } else {
            let n = (size - start) / (self.row_size + 1);
            assert(n == ((b.len() - self.rows_start()) as nat / self.stride()) as nat);
            Ok(n)
        }
    }

    /// Where row `index` starts in the data section.
    pub open spec fn row_offset(&self, index: nat) -> nat {
        self.rows_start() + index * self.stride()
    }

    proof fn lemma_row_in_bounds(&self, b: Seq<u8>, index: nat)
        requires
            self.stride() > 0,
            index < self.count_in(b),
        ensures
            self.row_offset(index) + self.stride() <= b.len(),
    {
        let len = b.len();
        let s = self.rows_start();
        let k = self.stride();
        assert(len >= s);
        let q = ((len - s) as nat / k) as nat;
        assert(index + 1 <= q);
        assert((index + 1) * k <= q * k) by (nonlinear_arith)
            requires index + 1 <= q, k > 0;
        assert(q * k <= (len - s) as nat) by (nonlinear_arith)
            requires q == ((len - s) as nat / k) as nat, k > 0;
        assert(index * k + k == (index + 1) * k) by (nonlinear_arith);
    }

    /// Reads row `index`, which must be one of the table's row slots.
    pub fn read(&self, c: &mut Container, index: usize) -> (r: Result<Row, Error>)
        requires
            self.wf(),
            old(c).wf(),
        ensures
            final(c).wf(),
            final(c).handles_same(old(c)),
            old(c).index_of(self.data()) == -1 ==> r == Err::<Row, Error>(Error::NotFound),
            ({
                let i = old(c).index_of(self.data());
                let b = old(c).bytes_at(i);
                &&& i >= 0 && old(c).loadable_at(i) && index < self.count_in(b) && b.len() <= i64::MAX && b.len() <= usize::MAX ==> r is Ok
                &&& i >= 0 && index >= self.count_in(b) && old(c).loadable_at(i) ==> r == Err::<Row, Error>(Error::NotFound)
                &&& r matches Ok(row) ==> {
                    &&& i >= 0
                    &&& index < self.count_in(b)
                    &&& row_decodes_to(self.cols(), b.subrange(self.row_offset(index as nat) as int,
                        (self.row_offset(index as nat) + self.stride()) as int), row.values@, row.free)
                    &&& final(c).bytes_at(i) == b
                }
            }),
    {
        let n = match self.count(c) {
            Ok(n) => n,
            Err(e) => return Err(e),
        };
        let ghost i = old(c).index_of(self.data());
        let ghost b = old(c).bytes_at(i);
        if index >= n {
            return Err(Error::NotFound);
        }
        let stride = self.row_size + 1;
        let start = SCHEMA_HEAD + SCHEMA_COLUMN * self.columns.len();
        proof {
            self.lemma_row_in_bounds(b, index as nat);
        }
        let limit: u64 = (i64::MAX as u64 - start as u64) / stride as u64;
        if index as u64 > limit {
            proof {
                let m = i64::MAX - start;
                if b.len() <= i64::MAX {
                    assert(index * stride <= m);
                    assert(index <= m / (stride as int)) by (nonlinear_arith)
                        requires index * stride <= m, stride > 0;
                }
            }
            return Err(Error::Io(IoErrorKind::Overflow));
        }
        proof {
            let m = (i64::MAX - start) as int;
            assert(index * stride <= m) by (nonlinear_arith)
                requires index as int <= m / (stride as int), stride > 0, m >= 0;
        }
        let off: u64 = start as u64 + index as u64 * stride as u64;
        match c.section_seek(self.handle, CSeekFrom::Start, off as i64) {
            Ok(_) => {},
            Err(e) => return Err(e),
        }
        let bytes = match c.section_read(self.handle, stride) {
            Ok(v) => v,
            Err(e) => return Err(e),
        };
        assert(bytes@ == b.subrange(off as int, off + stride));
        let row = decode_row(&self.columns, bytes.as_slice(), 0);
        assert(bytes@.subrange(0, (1 + row_width(self.columns@)) as int) =~= bytes@);
        Ok(row)
    }

    /// Writes `row` at slot `index`, which must be a row slot of the table or
    /// the slot just past the last one.
    pub fn write(&self, c: &mut Container, row: &Row, index: usize) -> (r: Result<(), Error>)
        requires
            self.wf(),
            old(c).wf(),
        ensures
            final(c).wf(),
            final(c).handles_same(old(c)),
            !row_encodable(self.cols(), row.values@) ==> r == Err::<(), Error>(Error::TypeError)
                && *final(c) == *old(c),
            row_encodable(self.cols(), row.values@) && old(c).index_of(self.data()) == -1
                ==> r == Err::<(), Error>(Error::NotFound),
            ({
                let i = old(c).index_of(self.data());
                let b = old(c).bytes_at(i);
                &&& i >= 0 && index > self.count_in(b) && old(c).loadable_at(i) && row_encodable(self.cols(), row.values@)
                    ==> r == Err::<(), Error>(Error::NotFound)
                &&& i >= 0 && old(c).loadable_at(i) && row_encodable(self.cols(), row.values@)
                    && index <= self.count_in(b)
                    && self.row_offset(index as nat) + self.stride() <= i64::MAX
                    && self.row_offset(index as nat) + self.stride() <= usize::MAX ==> r is Ok
                &&& r is Ok ==> {
                    &&& i >= 0
                    &&& index <= self.count_in(b)
                    &&& final(c).bytes_at(i) == write_at(b, self.row_offset(index as nat),
                        row_bytes(self.cols(), row.values@, row.free))
                    &&& final(c).same_but(old(c), i)
                    &&& final(c).loaded_at(i)
                }
            }),
    {
        let encoded = match encode_row(&self.columns, row) {
            Ok(v) => v,
            Err(e) => return Err(e),
        };
        let n = match self.count(c) {
            Ok(n) => n,
            Err(e) => return Err(e),
        };
        if index > n {
            return Err(Error::NotFound);
        }
        self.put(c, &encoded, row, index)
    }

    /// Appends `row` after the last row slot and returns its index.
    pub fn append(&self, c: &mut Container, row: &Row) -> (r: Result<usize, Error>)
        requires
            self.wf(),
            old(c).wf(),
        ensures
            final(c).wf(),
            final(c).handles_same(old(c)),
            !row_encodable(self.cols(), row.values@) ==> r == Err::<usize, Error>(Error::TypeError)
                && *final(c) == *old(c),
            row_encodable(self.cols(), row.values@) && old(c).index_of(self.data()) == -1
                ==> r == Err::<usize, Error>(Error::NotFound),
            ({
                let i = old(c).index_of(self.data());
                let b = old(c).bytes_at(i);
                &&& i >= 0 && old(c).loadable_at(i) && row_encodable(self.cols(), row.values@)
                    && self.row_offset(self.count_in(b)) + self.stride() <= i64::MAX
                    && self.row_offset(self.count_in(b)) + self.stride() <= usize::MAX
                    ==> r == Ok::<usize, Error>(self.count_in(b) as usize)
                &&& r matches Ok(k) ==> {
                    &&& i >= 0
                    &&& k == self.count_in(b)
                    &&& final(c).bytes_at(i) == write_at(b, self.row_offset(k as nat),
                        row_bytes(self.cols(), row.values@, row.free))
                    &&& final(c).same_but(old(c), i)
                    &&& final(c).loaded_at(i)
                }
            }),
    {
        let encoded = match encode_row(&self.columns, row) {
            Ok(v) => v,
            Err(e) => return Err(e),
        };
        let n = match self.count(c) {
            Ok(n) => n,
            Err(e) => return Err(e),
        };
        match self.put(c, &encoded, row, n) {
            Ok(()) => Ok(n),
            Err(e) => Err(e),
        }
    }

    fn put(&self, c: &mut Container, encoded: &Vec<u8>, row: &Row, index: usize) -> (r: Result<(), Error>)
        requires
            self.wf(),
            old(c).wf(),
            old(c).index_of(self.data()) >= 0,
            index <= self.count_in(old(c).bytes_at(old(c).index_of(self.data()))),
            row_encodable(self.cols(), row.values@),
            encoded@ == row_bytes(self.cols(), row.values@, row.free),
        ensures
            final(c).wf(),
            final(c).handles_same(old(c)),
            ({
                let i = old(c).index_of(self.data());
                let b = old(c).bytes_at(i);
                &&& old(c).loadable_at(i) && self.row_offset(index as nat) + self.stride() <= i64::MAX
                    && self.row_offset(index as nat) + self.stride() <= usize::MAX ==> r is Ok
                &&& r is Ok ==> final(c).bytes_at(i) == write_at(b, self.row_offset(index as nat),
                        row_bytes(self.cols(), row.values@, row.free))
                    && final(c).same_but(old(c), i)
                    && final(c).loaded_at(i)
            }),
    {
        proof { crate::row::lemma_encoded_len(self.columns@, row.values@); }
        let stride = self.row_size + 1;
        let start = SCHEMA_HEAD + SCHEMA_COLUMN * self.columns.len();
        let limit: u64 = (i64::MAX as u64 - start as u64) / stride as u64;
        if index as u64 > limit {
            proof {
                let m = (i64::MAX - start) as int;
                if self.row_offset(index as nat) + self.stride() <= i64::MAX {
                    assert(index * stride <= m);
                    assert(index as int <= m / (stride as int)) by (nonlinear_arith)
                        requires index * stride <= m, stride > 0;
                }
            }
            return Err(Error::Io(IoErrorKind::Overflow));
        }
        proof {
            let m = (i64::MAX - start) as int;
            assert(index * stride <= m) by (nonlinear_arith)
                requires index as int <= m / (stride as int), stride > 0, m >= 0;
        }
        let off: u64 = start as u64 + index as u64 * stride as u64;
        match c.section_seek(self.handle, CSeekFrom::Start, off as i64) {
            Ok(_) => {},
            Err(e) => return Err(e),
        }
        match c.section_write(self.handle, encoded.as_slice()) {
            Ok(_) => Ok(()),
            Err(e) => Err(e),
        }
    }
}

/// A row written at slot `k` of a data section reads back, from the bytes
/// that the write leaves, as the values it was written with when each value
/// fits its column; written at the first free slot, it adds one row.
pub proof fn law_table_round_trip(
    t: Table,
    b: Seq<u8>,
    k: nat,
    vals: Seq<Value>,
    free: bool,
    back: Seq<Value>,
    back_free: bool,
)
    requires
        t.wf(),
        crate::row::row_fits(t.cols(), vals),
        row_decodes_to(t.cols(),
            write_at(b, t.row_offset(k), row_bytes(t.cols(), vals, free)).subrange(
                t.row_offset(k) as int, (t.row_offset(k) + t.stride()) as int),
            back, back_free),
    ensures
        back_free == free,
        back.len() == vals.len(),
        forall|i: int| 0 <= i < vals.len() ==> crate::row::same_value(#[trigger] back[i], vals[i]),
        k == t.count_in(b) ==> t.count_in(write_at(b, t.row_offset(k), row_bytes(t.cols(), vals, free))) == k + 1,
{
    let rb = row_bytes(t.cols(), vals, free);
    crate::row::lemma_cells_len(t.cols(), vals);
    assert(rb.len() == t.stride());
    let off = t.row_offset(k);
    let w = write_at(b, off, rb);
    assert(w.subrange(off as int, (off + t.stride()) as int) =~= rb);
    crate::row::law_row_round_trip(t.cols(), vals, free, back, back_free);
    if k == t.count_in(b) {
        let st = t.rows_start();
        let m = t.stride();
        assert(m > 0);
        if b.len() >= st {
            let q = ((b.len() - st) as nat / m) as nat;
            assert(b.len() - st < (q + 1) * m) by (nonlinear_arith)
                requires q == ((b.len() - st) as nat / m) as nat, m > 0, b.len() >= st;
        }
        assert(b.len() < off + m) by (nonlinear_arith)
            requires
                k == (if b.len() < st { 0 } else { ((b.len() - st) as nat / m) as nat }),
                off == st + k * m,
                m > 0,
                b.len() >= st ==> b.len() - st < (k + 1) * m;
        assert(w.len() == off + m);
        assert(((w.len() - st) as nat / m) as nat == k + 1) by (nonlinear_arith)
            requires w.len() == st + k * m + m, m > 0;
    }
}


pub open spec fn no_nul_bytes(s: Seq<u8>) -> bool {
    forall|q: int| 0 <= q < s.len() ==> s[q] != 0
}

/// Whether `s` holds no zero byte.
pub fn nul_free(s: &[u8]) -> (r: bool)
    ensures
        r == no_nul_bytes(s@),
{
    let mut k: usize = 0;
    while k < s.len()
        invariant
            k <= s@.len(),
            forall|q: int| 0 <= q < k ==> s@[q] != 0,
        decreases s@.len() - k,
    {
        if s[k] == 0 {
            return false;
        }
        k = k + 1;
    }
    true
}

/// Appends `s` and a terminating zero byte to the strings section `strings`,
/// and returns where `s` starts.
pub fn put_string(c: &mut Container, strings: Handle, s: &[u8]) -> (r: Result<u32, Error>)
    requires
        old(c).wf(),
    ensures
        final(c).wf(),
        final(c).handles_same(old(c)),
        old(c).index_of(strings.raw) == -1 ==> r is Err,
        !no_nul_bytes(s@) ==> r == Err::<u32, Error>(Error::InvalidString),
        ({
            let i = old(c).index_of(strings.raw);
            i >= 0 && old(c).loadable_at(i) && no_nul_bytes(s@) && old(c).bytes_at(i).len() <= u32::MAX
                && old(c).bytes_at(i).len() + s@.len() + 1 <= usize::MAX ==> r is Ok
        }),
        r matches Ok(off) ==> {
            let i = old(c).index_of(strings.raw);
            &&& i >= 0
            &&& off == old(c).bytes_at(i).len()
            &&& final(c).bytes_at(i) == old(c).bytes_at(i) + s@ + seq![0u8]
            &&& final(c).same_but(old(c), i)
            &&& final(c).loaded_at(i)
        },
{
    if !nul_free(s) {
        return Err(Error::InvalidString);
    }
    proof { old(c).lemma_handles(strings.raw); }
    let end = match c.section_seek(strings, CSeekFrom::End, 0) {
        Ok(p) => p,
        Err(e) => return Err(e),
    };
    if end > u32::MAX as u64 {
        return Err(Error::Io(IoErrorKind::Overflow));
    }
    let mut buf: Vec<u8> = Vec::new();
    let mut j: usize = 0;
    while j < s.len()
        invariant
            j <= s@.len(),
            buf@ == s@.subrange(0, j as int),
        decreases s@.len() - j,
    {
        buf.push(s[j]);
        j = j + 1;
        assert(buf@ =~= s@.subrange(0, j as int));
    }
    buf.push(0u8);
    assert(buf@ =~= s@ + seq![0u8]);
    let ghost i = old(c).index_of(strings.raw);
    let ghost b = old(c).bytes_at(i);
    let ghost c1 = *c;
    assert(c1.index_of(strings.raw) == i);
    assert(c1.bytes_at(i) == b && c1.pos_at(i) == b.len());
    match c.section_write(strings, buf.as_slice()) {
        Ok(_) => {},
        Err(e) => return Err(e),
    }
    assert(write_at(b, b.len(), buf@) =~= b + s@ + seq![0u8]);
    assert(c.same_but(old(c), i));
    Ok(end as u32)
}

/// The zero-terminated string at `off` in the strings section `strings`.
pub fn get_string(c: &mut Container, strings: Handle, off: u32) -> (r: Result<Vec<u8>, Error>)
    requires
        old(c).wf(),
    ensures
        final(c).wf(),
        final(c).handles_same(old(c)),
        old(c).index_of(strings.raw) == -1 ==> r is Err,
        ({
            let i = old(c).index_of(strings.raw);
            i >= 0 && old(c).loadable_at(i) && off <= old(c).bytes_at(i).len() ==> r is Ok
        }),
        r matches Ok(v) ==> {
            let i = old(c).index_of(strings.raw);
            let b = old(c).bytes_at(i);
            &&& i >= 0
            &&& off <= b.len()
            &&& v@ == until_nul(b.subrange(off as int, b.len() as int))
            &&& final(c).bytes_at(i) == b
            &&& final(c).same_but(old(c), i)
            &&& final(c).loaded_at(i)
        },
{
    proof { old(c).lemma_handles(strings.raw); }
    let size = match c.section_size(strings) {
        Ok(n) => n,
        Err(e) => return Err(e),
    };
    if off as u64 > size as u64 {
        return Err(Error::NotFound);
    }
    match c.section_seek(strings, CSeekFrom::Start, off as i64) {
        Ok(_) => {},
        Err(e) => return Err(e),
    }
    let tail = match c.section_read(strings, size - off as usize) {
        Ok(v) => v,
        Err(e) => return Err(e),
    };
    let ghost b = old(c).bytes_at(old(c).index_of(strings.raw));
    assert(tail@ == b.subrange(off as int, b.len() as int));
    let mut out: Vec<u8> = Vec::new();
    let mut i: usize = 0;
    while i < tail.len() && tail[i] != 0
        invariant
            i <= tail@.len(),
            out@ == tail@.subrange(0, i as int),
            forall|k: int| 0 <= k < i ==> tail@[k] != 0,
        decreases tail@.len() - i,
    {
        out.push(tail[i]);
        i = i + 1;
        assert(out@ =~= tail@.subrange(0, i as int));
    }
    proof { lemma_until_nul_prefix(tail@, i as int); }
    Ok(out)
}


impl Table {
    /// The schema block: table name offset, column count, then per column its
    /// name offset, type code and length, little-endian.
    fn schema_block(&self) -> (r: Vec<u8>)
        requires
            self.wf(),
        ensures
            r@ == self.schema_of(),
            r@.len() == schema_len(self.cols().len()),
    {
        proof { lemma_pow256_values(); }
        let mut out: Vec<u8> = Vec::new();
        push_le(&mut out, self.name_offset as u64, 4);
        push_le(&mut out, self.columns.len() as u64, 2);
        let ghost head = out@;
        proof {
            crate::bytes::lemma_le_bytes_len(self.name_offset as nat, 4);
            crate::bytes::lemma_le_bytes_len(self.columns@.len(), 2);
            assert(self.name_offsets@.take(0) =~= Seq::<u32>::empty());
            assert(self.columns@.take(0) =~= Seq::<Column>::empty());
            assert(out@ =~= head + column_records(self.name_offsets@.take(0), self.columns@.take(0)));
        }
        let mut i: usize = 0;
        while i < self.columns.len()
            invariant
                self.wf(),
                i <= self.columns@.len(),
                head.len() == 6,
                head == le_bytes(self.name_offset as nat, 4) + le_bytes(self.columns@.len(), 2),
                out@ == head + column_records(self.name_offsets@.take(i as int), self.columns@.take(i as int)),
                out@.len() == 6 + 7 * i,
            decreases self.columns@.len() - i,
        {
            let ghost before = out@;
            push_le(&mut out, self.name_offsets[i] as u64, 4);
            out.push(code_of(self.columns[i].ty));
            push_le(&mut out, self.columns[i].len as u64, 2);
            proof {
                crate::bytes::lemma_le_bytes_len(self.name_offsets@[i as int] as nat, 4);
                crate::bytes::lemma_le_bytes_len(self.columns@[i as int].len as nat, 2);
                let o2 = self.name_offsets@.take(i + 1);
                let c2 = self.columns@.take(i + 1);
                assert(o2.drop_last() =~= self.name_offsets@.take(i as int));
                assert(c2.drop_last() =~= self.columns@.take(i as int));
                assert(column_records(o2, c2) == column_records(o2.drop_last(), c2.drop_last())
                    + column_record(o2.last(), c2.last()));
                assert(out@ =~= before + column_record(self.name_offsets@[i as int], self.columns@[i as int]));
            }
            i = i + 1;
        }
        assert(self.name_offsets@.take(i as int) =~= self.name_offsets@);
        assert(self.columns@.take(i as int) =~= self.columns@);
        out
    }

    fn write_schema(&self, c: &mut Container) -> (r: Result<(), Error>)
        requires
            self.wf(),
            old(c).wf(),
        ensures
            final(c).wf(),
            final(c).handles_same(old(c)),
            old(c).index_of(self.data()) == -1 ==> r == Err::<(), Error>(Error::NotFound),
            old(c).index_of(self.data()) >= 0 && old(c).loadable_at(old(c).index_of(self.data())) ==> r is Ok,
            r is Ok ==> {
                let i = old(c).index_of(self.data());
                &&& i >= 0
                &&& final(c).bytes_at(i) == write_at(old(c).bytes_at(i), 0, self.schema_of())
                &&& final(c).same_but(old(c), i)
                &&& final(c).loaded_at(i)
            },
    {
        proof { old(c).lemma_handles(self.handle.raw); }
        let block = self.schema_block();
        match c.section_seek(self.handle, CSeekFrom::Start, 0) {
            Ok(_) => {},
            Err(e) => return Err(e),
        }
        match c.section_write(self.handle, block.as_slice()) {
            Ok(_) => Ok(()),
            Err(e) => Err(e),
        }
    }

    /// Writes the schema block again.
    pub fn save(&self, c: &mut Container) -> (r: Result<(), Error>)
        requires
            self.wf(),
            old(c).wf(),
        ensures
            final(c).wf(),
            final(c).handles_same(old(c)),
            old(c).index_of(self.data()) == -1 ==> r == Err::<(), Error>(Error::NotFound),
            old(c).index_of(self.data()) >= 0 && old(c).loadable_at(old(c).index_of(self.data())) ==> r is Ok,
            r is Ok ==> {
                let i = old(c).index_of(self.data());
                &&& i >= 0
                &&& final(c).bytes_at(i) == write_at(old(c).bytes_at(i), 0, self.schema_of())
                &&& final(c).same_but(old(c), i)
                &&& final(c).loaded_at(i)
            },
    {
        self.write_schema(c)
    }

    /// A new, empty table named `name` in a new section of `c`; the name is
    /// kept in the strings section `strings`.
    pub fn create(c: &mut Container, strings: Handle, name: &[u8]) -> (r: Result<Table, Error>)
        requires
            old(c).wf(),
        ensures
            final(c).wf(),
            !no_nul_bytes(name@) ==> r == Err::<Table, Error>(Error::InvalidString),
            ({
                let j = old(c).index_of(strings.raw);
                no_nul_bytes(name@) && j >= 0 && old(c).loadable_at(j) && old(c).can_create()
                    && old(c).bytes_at(j).len() <= u32::MAX
                    && old(c).bytes_at(j).len() + name@.len() + 1 <= usize::MAX ==> r is Ok
            }),
            r matches Ok(t) ==> {
                let j = old(c).index_of(strings.raw);
                &&& t.wf()
                &&& t.cols().len() == 0
                &&& t.table_name() == name@
                &&& t.strings_section() == strings.raw
                &&& old(c).index_of(t.data()) == -1
                &&& final(c).num() == old(c).num() + 1
                &&& final(c).index_of(t.data()) == old(c).num()
                &&& final(c).bytes_at(old(c).num() as int) == t.schema_of()
                &&& j >= 0
                &&& t.name_ref() == old(c).bytes_at(j).len()
                &&& final(c).bytes_at(j) == old(c).bytes_at(j) + name@ + seq![0u8]
                &&& final(c).loaded_at(old(c).num() as int)
                &&& final(c).loaded_at(j)
                &&& final(c).index_of(strings.raw) == j
            },
    {
        let name_offset = match put_string(c, strings, name) {
            Ok(o) => o,
            Err(e) => return Err(e),
        };
        let ghost c1 = *c;
        proof {
            old(c).lemma_handles(strings.raw);
            c1.lemma_handles(strings.raw);
            assert(c1.handles() == old(c).handles());
        }
        let opts = SectionOptions::default_options();
        let handle = match c.section_create(&opts) {
            Ok(h) => h,
            Err(e) => return Err(e),
        };
        let mut own: Vec<u8> = Vec::new();
        let mut i: usize = 0;
        while i < name.len()
            invariant
                i <= name@.len(),
                own@ == name@.subrange(0, i as int),
            decreases name@.len() - i,
        {
            own.push(name[i]);
            i = i + 1;
            assert(own@ =~= name@.subrange(0, i as int));
        }
        assert(own@ =~= name@);
        let t = Table {
            handle,
            strings,
            name: own,
            name_offset,
            columns: Vec::new(),
            name_offsets: Vec::new(),
            row_size: 0,
        };
        assert(row_width(t.columns@) == 0);
        let ghost c2 = *c;
        match t.write_schema(c) {
            Ok(()) => {},
            Err(e) => return Err(e),
        }
        proof {
            assert(old(c).handles() == c1.handles());
            assert(c.handles() == c2.handles());
            let n = old(c).num() as int;
            let j = old(c).index_of(strings.raw);
            old(c).lemma_handles(strings.raw);
            assert(0 <= j < n);
            assert(c1.handles().len() == old(c).handles().len());
            assert(c1.num() == n);
            assert(c2.index_of(handle.raw) == n);
            assert(c2.bytes_at(n) == Seq::<u8>::empty());
            assert(write_at(Seq::<u8>::empty(), 0, t.schema_of()) =~= t.schema_of());
            assert(c2.bytes_at(j) == c1.bytes_at(j));
            assert(j != n);
            assert(c.bytes_at(j) == c2.bytes_at(j));
            c2.lemma_handles(strings.raw);
            assert(c2.handle_at(j) == c1.handle_at(j));
            assert(c2.index_of(strings.raw) == j);
        }
        Ok(t)
    }

    /// Opens the table whose data section is `handle`, resolving its names in
    /// the strings section `strings`.
    pub fn open(c: &mut Container, handle: Handle, strings: Handle) -> (r: Result<Table, Error>)
        requires
            old(c).wf(),
        ensures
            final(c).wf(),
            final(c).handles_same(old(c)),
            old(c).index_of(handle.raw) == -1 ==> r is Err,
            handle.raw == strings.raw ==> r == Err::<Table, Error>(Error::NotFound),
            ({
                let i = old(c).index_of(handle.raw);
                let j = old(c).index_of(strings.raw);
                i >= 0 && j >= 0 && handle.raw != strings.raw && old(c).loadable_at(i) && old(c).loadable_at(j)
                    && schema_ok(old(c).bytes_at(i), old(c).bytes_at(j)) ==> r is Ok
            }),
            r matches Ok(t) ==> {
                let i = old(c).index_of(handle.raw);
                let b = old(c).bytes_at(i);
                let j = old(c).index_of(strings.raw);
                let sb = old(c).bytes_at(j);
                &&& t.wf()
                &&& t.data() == handle.raw
                &&& t.strings_section() == strings.raw
                &&& i >= 0 && j >= 0
                &&& schema_len(t.cols().len()) <= b.len()
                &&& t.schema_of() == b.subrange(0, schema_len(t.cols().len()) as int)
                &&& t.name_ref() <= sb.len()
                &&& t.table_name() == until_nul(sb.subrange(t.name_ref() as int, sb.len() as int))
                &&& forall|k: int| 0 <= k < t.cols().len() ==> t.column_name_ref(k) <= sb.len()
                    && (#[trigger] t.cols()[k]).name@
                    == until_nul(sb.subrange(t.column_name_ref(k) as int, sb.len() as int))
            },
    {
        proof {
            lemma_pow256_values();
            old(c).lemma_handles(handle.raw);
            old(c).lemma_handles(strings.raw);
        }
        if handle.raw == strings.raw {
            return Err(Error::NotFound);
        }
        let ghost i = old(c).index_of(handle.raw);
        let ghost b = old(c).bytes_at(i);
        let ghost j = old(c).index_of(strings.raw);
        let ghost sb = old(c).bytes_at(j);
        let ghost good = i >= 0 && j >= 0 && old(c).loadable_at(i) && old(c).loadable_at(j) && schema_ok(b, sb);
        proof {
            if i >= 0 && j >= 0 {
                assert(old(c).handle_at(i) == handle.raw && old(c).handle_at(j) == strings.raw);
                assert(i != j);
            }
        }
        let size = match c.section_size(handle) {
            Ok(n) => n,
            Err(e) => return Err(e),
        };
        if size < SCHEMA_HEAD {
            return Err(Error::Format(crate::error::FormatCheck::Truncated));
        }
        match c.section_seek(handle, CSeekFrom::Start, 0) {
            Ok(_) => {},
            Err(e) => return Err(e),
        }
        let head = match c.section_read(handle, SCHEMA_HEAD) {
            Ok(v) => v,
            Err(e) => return Err(e),
        };
        if head.len() < SCHEMA_HEAD {
            return Err(Error::Format(crate::error::FormatCheck::Truncated));
        }
        assert(head@ == b.subrange(0, 6));
        let name_offset = read_le(head.as_slice(), 0, 4) as u32;
        let ncols = read_le(head.as_slice(), 4, 2) as usize;
        proof {
            lemma_le_value_bound(head@.subrange(0, 4));
            lemma_le_value_bound(head@.subrange(4, 6));
            assert(head@.subrange(4, 6) =~= b.subrange(4, 6));
            assert(head@.subrange(0, 4) =~= b.subrange(0, 4));
            assert(ncols == le_value(b.subrange(4, 6)));
            assert(name_offset == le_value(b.subrange(0, 4)));
        }
        let body = match c.section_read(handle, SCHEMA_COLUMN * ncols) {
            Ok(v) => v,
            Err(e) => return Err(e),
        };
        if body.len() < SCHEMA_COLUMN * ncols {
            proof {
                if good {
                    assert(b.len() >= 6 + 7 * ncols);
                }
            }
            return Err(Error::Format(crate::error::FormatCheck::Truncated));
        }
        assert(body@ == b.subrange(6, 6 + 7 * ncols));
        assert(6 + 7 * ncols <= b.len());
        assert(c.same_bytes(old(c)));
        let mut columns: Vec<Column> = Vec::new();
        let mut name_offsets: Vec<u32> = Vec::new();
        let mut k: usize = 0;
        proof {
            assert(body@.subrange(0, 0) =~= Seq::<u8>::empty());
        }
        while k < ncols
            invariant
                handle.raw != strings.raw,
                good == (i >= 0 && j >= 0 && old(c).loadable_at(i) && old(c).loadable_at(j) && schema_ok(b, sb)),
                b == old(c).bytes_at(i),
                i >= 0 && j >= 0 ==> i != j,
                6 + 7 * ncols <= b.len(),
                body@ == b.subrange(6, 6 + 7 * ncols as int),
                ncols == le_value(b.subrange(4, 6)),
                good ==> c.loadable_at(j),
                row_width(columns@) == schema_row_width(b, k as nat),
                c.wf(),
                c.handles() == old(c).handles(),
                c.same_bytes(old(c)),
                i == old(c).index_of(handle.raw),
                j == old(c).index_of(strings.raw),
                sb == old(c).bytes_at(j),
                -1 <= j < old(c).num(),
                ncols <= 0xFFFF,
                body@.len() >= 7 * ncols,
                k <= ncols,
                columns@.len() == k,
                name_offsets@.len() == k,
                pow256(4) == 0x1_0000_0000,
                pow256(2) == 0x1_0000,
                column_records(name_offsets@, columns@) == body@.subrange(0, 7 * k as int),
                k > 0 ==> j >= 0,
                forall|q: int| 0 <= q < k ==> name_offsets@[q] <= sb.len()
                    && (#[trigger] columns@[q]).name@ == until_nul(sb.subrange(name_offsets@[q] as int, sb.len() as int)),
            decreases ncols - k,
        {
            let at = SCHEMA_COLUMN * k;
            proof {
                lemma_le_value_bound(body@.subrange(at as int, at + 4));
                lemma_le_value_bound(body@.subrange(at + 5, at + 7));
                crate::bytes::lemma_le_value_bytes(body@.subrange(at as int, at + 4));
                crate::bytes::lemma_le_value_bytes(body@.subrange(at + 5, at + 7));
            }
            let noff = read_le(body.as_slice(), at, 4) as u32;
            let ghost o = record_at(k as int);
            proof {
                assert(body@.subrange(at as int, at + 4) =~= b.subrange(o, o + 4));
                assert(body@.subrange(at + 5, at + 7) =~= b.subrange(o + 5, o + 7));
                assert(body@[at + 4] == b[o + 4]);
                if good {
                    assert(b[record_at(k as int) + 4] <= 12);
                }
            }
            let ty = match type_of_code(body[at + 4]) {
                Some(t) => t,
                None => return Err(Error::TypeError),
            };
            let len = read_le(body.as_slice(), at + 5, 2) as u16;
            let ghost cb = *c;
            let cname = match get_string(c, strings, noff) {
                Ok(v) => v,
                Err(e) => return Err(e),
            };
            proof {
                assert(cb.index_of(strings.raw) == j);
                assert(c.same_bytes(old(c))) by {
                    assert forall|q: int| 0 <= q < c.num() implies #[trigger] c.bytes_at(q) == old(c).bytes_at(q) by {
                        if q != j {
                            assert(c.bytes_at(q) == cb.bytes_at(q));
                        }
                        assert(cb.bytes_at(q) == old(c).bytes_at(q));
                    }
                }
            }
            let col = Column { name: cname, ty, len };
            let ghost before_o = name_offsets@;
            let ghost before_c = columns@;
            columns.push(col);
            name_offsets.push(noff);
            proof {
                lemma_code_width(ty, len);
                crate::row::lemma_row_width_push(before_c, col);
                assert(columns@ =~= before_c.push(col));
                assert(schema_row_width(b, (k + 1) as nat) == schema_row_width(b, k as nat)
                    + code_width(b[o + 4], le_value(b.subrange(o + 5, o + 7))));
                assert(name_offsets@.drop_last() =~= before_o);
                assert(columns@.drop_last() =~= before_c);
                assert(column_records(name_offsets@, columns@)
                    == column_records(before_o, before_c) + column_record(noff, col));
                assert(column_record(noff, col) =~= body@.subrange(at as int, at + 7));
                assert(body@.subrange(0, at + 7) =~= body@.subrange(0, at as int) + body@.subrange(at as int, at + 7));
            }
            k = k + 1;
        }
        let row_size = match row_size_of(&columns) {
            Some(n) => n,
            None => {
                proof {
                    if good {
                        assert(schema_row_width(b, ncols as nat) + 1 + schema_len(ncols as nat) <= u32::MAX);
                    }
                }
                return Err(Error::Io(IoErrorKind::Overflow));
            },
        };
        if row_size > u32::MAX as usize || row_size as u64 + 1 + 6 + 7 * ncols as u64 > u32::MAX as u64 {
            return Err(Error::Io(IoErrorKind::Overflow));
        }
        let ghost cb = *c;
        let name = match get_string(c, strings, name_offset) {
            Ok(v) => v,
            Err(e) => return Err(e),
        };
        proof {
            assert(cb.index_of(strings.raw) == j);
            assert(cb.bytes_at(j) == sb);
            crate::bytes::lemma_le_value_bytes(head@.subrange(0, 4));
            crate::bytes::lemma_le_value_bytes(head@.subrange(4, 6));
            assert(body@.subrange(0, 7 * ncols as int) =~= body@);
            assert(b.subrange(0, 6 + 7 * ncols as int) =~= head@.subrange(0, 4) + head@.subrange(4, 6) + body@);
        }
        Ok(Table { handle, strings, name, name_offset, columns, name_offsets, row_size })
    }

    /// Appends a column, while the table holds no rows, and returns its
    /// position; its name goes to the strings section.
    pub fn column_create(&mut self, c: &mut Container, name: &[u8], ty: ValueType, len: u16) -> (r: Result<usize, Error>)
        requires
            old(self).wf(),
            old(c).wf(),
        ensures
            final(self).wf(),
            final(c).wf(),
            final(c).handles_same(old(c)),
            final(self).data() == old(self).data(),
            final(self).strings_section() == old(self).strings_section(),
            ({
                let i = old(c).index_of(old(self).data());
                let j = old(c).index_of(old(self).strings_section());
                let b = old(c).bytes_at(i);
                let sb = old(c).bytes_at(j);
                let k = old(self).cols().len();
                &&& i >= 0 && old(c).loadable_at(i) && old(self).count_in(b) > 0
                    ==> r == Err::<usize, Error>(Error::TableNotEmpty)
                &&& i >= 0 && j >= 0 && old(c).loadable_at(i) && old(c).loadable_at(j)
                    && old(self).count_in(b) == 0 && no_nul_bytes(name@) && k < 0xFFFF
                    && row_width(old(self).cols()) + crate::row::width(ty, len) + 1 + schema_len(k + 1) <= u32::MAX
                    && sb.len() <= u32::MAX && sb.len() + name@.len() + 1 <= usize::MAX
                    ==> r == Ok::<usize, Error>(k as usize)
                &&& r is Ok ==> {
                    &&& final(c).loaded_at(i) && final(c).loaded_at(j)
                    &&& final(c).bytes_at(j) == sb + name@ + seq![0u8]
                    &&& final(c).bytes_at(i) == write_at(b, 0, final(self).schema_of())
                    &&& final(self).name_ref() == old(self).name_ref()
                    &&& final(self).column_name_ref(k as int) == sb.len()
                }
            }),
            r matches Ok(k) ==> {
                &&& k == old(self).cols().len()
                &&& final(self).cols().len() == k + 1
                &&& final(self).cols().subrange(0, k as int) == old(self).cols()
                &&& final(self).cols()[k as int].name@ == name@
                &&& final(self).cols()[k as int].ty == ty
                &&& final(self).cols()[k as int].len == len
            },
    {
        proof {
            old(c).lemma_handles(self.handle.raw);
            old(c).lemma_handles(self.strings.raw);
        }
        let ghost di = old(c).index_of(self.handle.raw);
        let ghost sj = old(c).index_of(self.strings.raw);
        let n = match self.count(c) {
            Ok(n) => n,
            Err(e) => return Err(e),
        };
        if n > 0 {
            return Err(Error::TableNotEmpty);
        }
        let ghost c1 = *c;
        proof {
            if sj >= 0 {
                assert(di != sj);
            }
        }
        let col_probe = Column { name: Vec::new(), ty, len };
        let w = column_width(&col_probe);
        let k = self.columns.len();
        if k >= 0xFFFF || self.row_size as u64 + w as u64 + 1 + 6 + 7 * (k as u64 + 1) > u32::MAX as u64 {
            return Err(Error::Io(IoErrorKind::Overflow));
        }
        let noff = match put_string(c, self.strings, name) {
            Ok(o) => o,
            Err(e) => return Err(e),
        };
        let mut own: Vec<u8> = Vec::new();
        let mut i: usize = 0;
        while i < name.len()
            invariant
                i <= name@.len(),
                own@ == name@.subrange(0, i as int),
            decreases name@.len() - i,
        {
            own.push(name[i]);
            i = i + 1;
            assert(own@ =~= name@.subrange(0, i as int));
        }
        assert(own@ =~= name@);
        let col = Column { name: own, ty, len };
        proof { crate::row::lemma_row_width_push(self.columns@, col); }
        self.columns.push(col);
        self.name_offsets.push(noff);
        self.row_size = self.row_size + w;
        assert(self.columns@.subrange(0, k as int) =~= old(self).columns@);
        let ghost c2 = *c;
        proof {
            assert(c2.index_of(self.handle.raw) == di);
            assert(c2.loaded_at(di));
        }
        match self.write_schema(c) {
            Ok(()) => {},
            Err(e) => return Err(e),
        }
        proof {
            assert(c.bytes_at(sj) == c2.bytes_at(sj));
        }
        Ok(k)
    }

    /// Removes the column at `index`, while the table holds no rows.
    pub fn column_remove_at(&mut self, c: &mut Container, index: usize) -> (r: Result<(), Error>)
        requires
            old(self).wf(),
            old(c).wf(),
        ensures
            final(self).wf(),
            final(c).wf(),
            final(self).data() == old(self).data(),
            index >= old(self).cols().len() ==> r == Err::<(), Error>(Error::ColumnNotFound),
            ({
                let i = old(c).index_of(old(self).data());
                let b = old(c).bytes_at(i);
                &&& index < old(self).cols().len() && i >= 0 && old(c).loadable_at(i) && old(self).count_in(b) > 0
                    ==> r == Err::<(), Error>(Error::TableNotEmpty)
                &&& index < old(self).cols().len() && i >= 0 && old(c).loadable_at(i) && old(self).count_in(b) == 0
                    ==> r is Ok
            }),
            r is Ok ==> final(self).cols() == old(self).cols().remove(index as int),
    {
        if index >= self.columns.len() {
            return Err(Error::ColumnNotFound);
        }
        let n = match self.count(c) {
            Ok(n) => n,
            Err(e) => return Err(e),
        };
        if n > 0 {
            return Err(Error::TableNotEmpty);
        }
        let ghost before = self.columns@;
        let removed = self.columns.remove(index);
        let _off = self.name_offsets.remove(index);
        proof {
            crate::row::lemma_row_width_remove(before, index as int);
        }
        let w = column_width(&removed);
        self.row_size = self.row_size - w;
        match self.write_schema(c) {
            Ok(()) => {},
            Err(e) => return Err(e),
        }
        Ok(())
    }
}

} // verus!
