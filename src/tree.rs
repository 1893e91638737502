use vstd::prelude::*;
use crate::error::Error;
use crate::row::same_value;
use crate::value::Value;

verus! {

/// A self-describing value: a scalar, an ordered array, or an object whose
/// entries each carry an optional name and a content hash.
#[derive(Debug)]
pub enum SdValue {
    Null,
    Bool(bool),
    Uint8(u8),
    Uint16(u16),
    Uint32(u32),
    Uint64(u64),
    Int8(i8),
    Int16(i16),
    Int32(i32),
    Int64(i64),
    /// The bit pattern of a 32-bit float.
    Float(u32),
    /// The bit pattern of a 64-bit float.
    Double(u64),
    /// UTF-8 bytes.
    String(Vec<u8>),
    Array(Vec<SdValue>),
    Object(Vec<SdEntry>),
}

/// One entry of an object.
#[derive(Debug)]
pub struct SdEntry {
    pub name: Option<Vec<u8>>,
    pub hash: u64,
    pub value: SdValue,
}

/// What a node holds: a scalar, or an ordered list of children.
#[derive(Debug)]
pub enum Content {
    Scalar(Value),
    Composite(Vec<Node>),
}

/// A named node of a value tree.
#[derive(Debug)]
pub struct Node {
    pub name: Vec<u8>,
    pub content: Content,
    pub details: Option<Box<Node>>,
}

/// The upper-case hexadecimal digit for `d`.
pub open spec fn hex_digit(d: nat) -> u8 {
    if d < 10 { (0x30 + d) as u8 } else { (0x41 + d - 10) as u8 }
}

/// `n` in upper-case hexadecimal, without leading zeros.
pub open spec fn hex_upper(n: nat) -> Seq<u8>
    decreases n,
{
    if n < 16 { seq![hex_digit(n)] } else { hex_upper(n / 16) + seq![hex_digit(n % 16)] }
}

/// The name of the node made for an object entry: its own name, or else its
/// hash in hexadecimal.
pub open spec fn entry_name(e: SdEntry) -> Seq<u8> {
    match e.name {
        Some(n) => n@,
        None => hex_upper(e.hash as nat),
    }
}

pub open spec fn is_composite(v: SdValue) -> bool {
    v is Array || v is Object
}

/// The scalar that a non-composite value maps to.
pub open spec fn scalar_of(v: SdValue) -> Value {
    match v {
        SdValue::Null => Value::Null,
        SdValue::Bool(b) => Value::Boolean(b),
        SdValue::Uint8(x) => Value::UInt8(x),
        SdValue::Uint16(x) => Value::UInt16(x),
        SdValue::Uint32(x) => Value::UInt32(x),
        SdValue::Uint64(x) => Value::UInt64(x),
        SdValue::Int8(x) => Value::Int8(x),
        SdValue::Int16(x) => Value::Int16(x),
        SdValue::Int32(x) => Value::Int32(x),
        SdValue::Int64(x) => Value::Int64(x),
        SdValue::Float(x) => Value::Float(x),
        SdValue::Double(x) => Value::Double(x),
        SdValue::String(s) => Value::String(s),
        _ => Value::Null,
    }
}

pub open spec fn nul_free(s: Seq<u8>) -> bool {
    forall|i: int| 0 <= i < s.len() ==> s[i] != 0
}

/// The entry has a name with a zero byte.
pub open spec fn bad_name(e: SdEntry) -> bool {
    match e.name {
        Some(s) => !nul_free(s@),
        None => false,
    }
}

/// The name `"root"`.
pub open spec fn root_name() -> Seq<u8> {
    seq![0x72u8, 0x6fu8, 0x6fu8, 0x74u8]
}

/// No name and no string at any depth of `v` holds a zero byte.
pub open spec fn value_ok(v: SdValue) -> bool
    decreases v,
{
    match v {
        SdValue::String(s) => nul_free(s@),
        SdValue::Array(xs) => forall|i: int| 0 <= i < xs@.len() ==> value_ok(#[trigger] xs@[i]),
        SdValue::Object(es) => forall|i: int| 0 <= i < es@.len()
            ==> !bad_name(#[trigger] es@[i]) && value_ok(es@[i].value),
        _ => true,
    }
}

/// The name of the node made for an array element: `root` for an object,
/// empty otherwise.
pub open spec fn element_name(v: SdValue) -> Seq<u8> {
    if v is Object { root_name() } else { Seq::empty() }
}

/// `c` is what the conversion makes of `v`: children named and converted
/// entry by entry (element by element for an array), or the scalar.
pub open spec fn content_matches(c: Content, v: SdValue) -> bool
    decreases v,
{
    match v {
        SdValue::Array(xs) => match c {
            Content::Composite(ch) => ch@.len() == xs@.len() && forall|i: int| 0 <= i < xs@.len() ==> {
                &&& ch@[i].name@ == element_name(xs@[i])
                &&& ch@[i].details is None
                &&& content_matches(#[trigger] ch@[i].content, xs@[i])
            },
            _ => false,
        },
        SdValue::Object(es) => match c {
            Content::Composite(ch) => ch@.len() == es@.len() && forall|i: int| 0 <= i < es@.len() ==> {
                &&& ch@[i].name@ == entry_name(es@[i])
                &&& ch@[i].details is None
                &&& content_matches(#[trigger] ch@[i].content, es@[i].value)
            },
            _ => false,
        },
        _ => match c {
            Content::Scalar(x) => same_value(x, scalar_of(v)),
            _ => false,
        },
    }
}

fn hex_digit_of(d: u64) -> (r: u8)
    requires
        d < 16,
    ensures
        r == hex_digit(d as nat),
{
    if d < 10 { (0x30 + d) as u8 } else { (0x41 + d - 10) as u8 }
}

/// `n` in upper-case hexadecimal, without leading zeros.
pub fn to_hex_upper(n: u64) -> (r: Vec<u8>)
    ensures
        r@ == hex_upper(n as nat),
{
    let mut digits: Vec<u8> = Vec::new();
    let mut x: u64 = n;
    let ghost mut rest: Seq<u8> = Seq::empty();
    // digits holds the low digits, last first; hex_upper(x) + rest == hex_upper(n)
    while x >= 16
        invariant
            hex_upper(x as nat) + rest == hex_upper(n as nat),
            digits@.len() == rest.len(),
            forall|k: int| 0 <= k < rest.len() ==> #[trigger] digits@[k] == rest[rest.len() - 1 - k],
        decreases x,
    {
        let d = hex_digit_of(x % 16);
        proof {
            assert(hex_upper(x as nat) == hex_upper((x / 16) as nat) + seq![hex_digit((x % 16) as nat)]);
            assert(hex_upper((x / 16) as nat) + (seq![d] + rest) =~= hex_upper(x as nat) + rest);
            rest = seq![d] + rest;
        }
        digits.push(d);
        x = x / 16;
    }
    let d = hex_digit_of(x);
    proof {
        rest = seq![d] + rest;
    }
    digits.push(d);
    let mut out: Vec<u8> = Vec::new();
    let mut i: usize = digits.len();
    while i > 0
        invariant
            i <= digits@.len() == rest.len(),
            forall|k: int| 0 <= k < rest.len() ==> #[trigger] digits@[k] == rest[rest.len() - 1 - k],
            out@ == rest.subrange(0, (rest.len() - i) as int),
        decreases i,
    {
        i = i - 1;
        out.push(digits[i]);
        assert(out@ =~= rest.subrange(0, (rest.len() - i) as int));
    }
    assert(out@ =~= rest);
    out
}

fn copy_bytes(s: &Vec<u8>) -> (r: Vec<u8>)
    ensures
        r@ == s@,
{
    let mut out: Vec<u8> = Vec::new();
    let mut i: usize = 0;
    while i < s.len()
        invariant
            i <= s@.len(),
            out@ == s@.subrange(0, i as int),
        decreases s@.len() - i,
    {
        out.push(s[i]);
        i = i + 1;
        assert(out@ =~= s@.subrange(0, i as int));
    }
    assert(out@ =~= s@);
    out
}

/// A copy of `s`, refused when it holds a zero byte.
fn checked_name(s: &Vec<u8>) -> (r: Result<Vec<u8>, Error>)
    ensures
        r is Err <==> !nul_free(s@),
        r is Err ==> r == Err::<Vec<u8>, Error>(Error::InvalidString),
        r matches Ok(v) ==> v@ == s@,
{
    let mut i: usize = 0;
    while i < s.len()
        invariant
            i <= s@.len(),
            forall|k: int| 0 <= k < i ==> s@[k] != 0,
        decreases s@.len() - i,
    {
        if s[i] == 0 {
            return Err(Error::InvalidString);
        }
        i = i + 1;
    }
    Ok(copy_bytes(s))
}

/// The scalar for a non-composite value; a string with a zero byte is
/// refused.
pub fn scalar_value(v: &SdValue) -> (r: Result<Value, Error>)
    ensures
        is_composite(*v) ==> r == Err::<Value, Error>(Error::UnsupportedValue),
        v matches SdValue::String(s) ==> (r is Err <==> !nul_free(s@)),
        r is Err ==> r == Err::<Value, Error>(Error::UnsupportedValue) || r == Err::<Value, Error>(Error::InvalidString),
        !is_composite(*v) && r is Err ==> r == Err::<Value, Error>(Error::InvalidString),
        !is_composite(*v) && !(v is String) ==> r is Ok,
        r matches Ok(x) ==> same_value(x, scalar_of(*v)),
{
    match v {
        SdValue::Null => Ok(Value::Null),
        SdValue::Bool(b) => Ok(Value::Boolean(*b)),
        SdValue::Uint8(x) => Ok(Value::UInt8(*x)),
        SdValue::Uint16(x) => Ok(Value::UInt16(*x)),
        SdValue::Uint32(x) => Ok(Value::UInt32(*x)),
        SdValue::Uint64(x) => Ok(Value::UInt64(*x)),
        SdValue::Int8(x) => Ok(Value::Int8(*x)),
        SdValue::Int16(x) => Ok(Value::Int16(*x)),
        SdValue::Int32(x) => Ok(Value::Int32(*x)),
        SdValue::Int64(x) => Ok(Value::Int64(*x)),
        SdValue::Float(x) => Ok(Value::Float(*x)),
        SdValue::Double(x) => Ok(Value::Double(*x)),
        SdValue::String(s) => match checked_name(s) {
            Ok(b) => Ok(Value::String(b)),
            Err(e) => Err(e),
        },
        SdValue::Array(_) => Err(Error::UnsupportedValue),
        SdValue::Object(_) => Err(Error::UnsupportedValue),
    }
}

fn root_bytes() -> (r: Vec<u8>)
    ensures
        r@ == root_name(),
{
    let mut v: Vec<u8> = Vec::new();
    v.push(0x72u8);
    v.push(0x6fu8);
    v.push(0x6fu8);
    v.push(0x74u8);
    assert(v@ =~= root_name());
    v
}

proof fn lemma_array_bad(items: Vec<SdValue>, i: int)
    requires
        0 <= i < items@.len(),
        !value_ok(items@[i]),
    ensures
        !value_ok(SdValue::Array(items)),
{
    let v = SdValue::Array(items);
    assert(v->Array_0 == items);
    assert(value_ok(v) == (forall|k: int| 0 <= k < items@.len() ==> value_ok(#[trigger] items@[k])));
}

proof fn lemma_object_bad(entries: Vec<SdEntry>, i: int)
    requires
        0 <= i < entries@.len(),
        bad_name(entries@[i]) || !value_ok(entries@[i].value),
    ensures
        !value_ok(SdValue::Object(entries)),
{
}

/// The node for an array: unnamed, with one child per element in order.
/// Scalar and array elements get an empty name, object elements `root`.
fn array_node(items: &Vec<SdValue>) -> (r: Result<Node, Error>)
    ensures
        r is Ok <==> value_ok(SdValue::Array(*items)),
        r is Err ==> r == Err::<Node, Error>(Error::InvalidString),
        r matches Ok(n) ==> n.name@ == Seq::<u8>::empty() && n.details is None
            && content_matches(n.content, SdValue::Array(*items)),
    decreases items,
{
    let mut children: Vec<Node> = Vec::new();
    let mut i: usize = 0;
    while i < items.len()
        invariant
            i <= items@.len(),
            children@.len() == i,
            forall|k: int| 0 <= k < i ==> value_ok(#[trigger] items@[k]),
            forall|k: int| 0 <= k < i ==> {
                &&& children@[k].name@ == element_name(items@[k])
                &&& children@[k].details is None
                &&& content_matches(#[trigger] children@[k].content, items@[k])
            },
        decreases items@.len() - i,
    {
        let item = &items[i];
        proof { assert(decreases_to!(items => items[i as int])); }
        let n = match item {
            SdValue::Array(xs) => match array_node(xs) {
                Ok(n) => n,
                Err(e) => {
                    proof { lemma_array_bad(*items, i as int); }
                    return Err(e);
                },
            },
            SdValue::Object(es) => match object_node(es) {
                Ok(n) => n,
                Err(e) => {
                    proof { lemma_array_bad(*items, i as int); }
                    return Err(e);
                },
            },
            _ => match scalar_value(item) {
                Ok(v) => Node { name: Vec::new(), content: Content::Scalar(v), details: None },
                Err(e) => {
                    proof { lemma_array_bad(*items, i as int); }
                    return Err(e);
                },
            },
        };
        children.push(n);
        i = i + 1;
    }
    let r = Node { name: Vec::new(), content: Content::Composite(children), details: None };
    assert(r.name@ =~= Seq::<u8>::empty());
    Ok(r)
}

/// The node for an object, named `root`, with one child per entry in order.
fn object_node(entries: &Vec<SdEntry>) -> (r: Result<Node, Error>)
    ensures
        r is Ok <==> value_ok(SdValue::Object(*entries)),
        r is Err ==> r == Err::<Node, Error>(Error::InvalidString),
        r matches Ok(n) ==> n.name@ == root_name() && n.details is None
            && content_matches(n.content, SdValue::Object(*entries)),
    decreases entries,
{
    let mut children: Vec<Node> = Vec::new();
    let mut i: usize = 0;
    while i < entries.len()
        invariant
            i <= entries@.len(),
            children@.len() == i,
            forall|k: int| 0 <= k < i ==> !bad_name(#[trigger] entries@[k]) && value_ok(entries@[k].value),
            forall|k: int| 0 <= k < i ==> {
                &&& children@[k].name@ == entry_name(entries@[k])
                &&& children@[k].details is None
                &&& content_matches(#[trigger] children@[k].content, entries@[k].value)
            },
        decreases entries@.len() - i,
    {
        let e = &entries[i];
        proof { assert(decreases_to!(entries => entries[i as int])); }
        let name = match &e.name {
            Some(s) => match checked_name(s) {
                Ok(v) => v,
                Err(err) => {
                    proof { lemma_object_bad(*entries, i as int); }
                    return Err(err);
                },
            },
            None => to_hex_upper(e.hash),
        };
        let content = match &e.value {
            SdValue::Array(xs) => match array_node(xs) {
                Ok(n) => n.content,
                Err(err) => {
                    proof { lemma_object_bad(*entries, i as int); }
                    return Err(err);
                },
            },
            SdValue::Object(es) => match object_node(es) {
                Ok(n) => n.content,
                Err(err) => {
                    proof { lemma_object_bad(*entries, i as int); }
                    return Err(err);
                },
            },
            _ => match scalar_value(&e.value) {
                Ok(v) => Content::Scalar(v),
                Err(err) => {
                    proof { lemma_object_bad(*entries, i as int); }
                    return Err(err);
                },
            },
        };
        children.push(Node { name, content, details: None });
        i = i + 1;
    }
    Ok(Node { name: root_bytes(), content: Content::Composite(children), details: None })
}

/// Projects a self-describing object into a value tree: a root named `root`
/// whose children are the object's entries, in order, each named by its name
/// or else its hash. Arrays and objects become composite nodes, the rest
/// scalar nodes. The conversion succeeds exactly when no name and no string,
/// at any depth, holds a zero byte; otherwise it fails as a whole with
/// `InvalidString`.
pub fn from_object(object: &Vec<SdEntry>) -> (r: Result<Node, Error>)
    ensures
        r is Ok <==> value_ok(SdValue::Object(*object)),
        r is Err ==> r == Err::<Node, Error>(Error::InvalidString),
        r matches Ok(n) ==> n.name@ == root_name() && n.details is None
            && content_matches(n.content, SdValue::Object(*object)),
{
    object_node(object)
}

} // verus!
