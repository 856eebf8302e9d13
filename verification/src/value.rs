//! The value model: what the encoder accepts and the decoder produces.
//!
//! Every executable type has a mathematical view. Contracts and proofs speak
//! of [`Term`], the view of [`Value`], and of [`Record`], the view of
//! [`Structure`].

use crate::v1::wire::{i64_to_unsigned, lemma_radix, to_unsigned};
use vstd::prelude::*;
use vstd::slice::slice_to_vec;
use vstd::utf8::encode_utf8;

verus! {

/// The shape of a value, as far as the wire format tells shapes apart.
#[derive(Clone, Copy, Debug, PartialEq, Eq, Structural)]
pub enum Kind {
    Null,
    Bool,
    Int,
    Float,
    Str,
    Bytes,
    List,
    Dict,
    Structure,
    /// An application object, with the application's name for its type.
    Foreign(u64),
}

/// A reference to an application object that has no shape of the format.
///
/// The codec never looks behind `handle`; `kind` selects the transform that
/// turns the object into a value the format can carry.
#[derive(Clone, Copy, Debug, PartialEq, Eq, Structural)]
pub struct Foreign {
    pub kind: u64,
    pub handle: u64,
}

/// A tagged record whose meaning only the application knows.
#[derive(Debug)]
pub struct Structure {
    pub tag: u8,
    pub fields: Vec<Value>,
}

/// A value of the format.
///
/// `Float` holds the bits of an IEEE-754 binary64 number. `Dict` holds its
/// entries in insertion order; the format carries an entry only if its key is
/// a `Str`.
#[derive(Debug)]
pub enum Value {
    Null,
    Bool(bool),
    Int(i64),
    Float(u64),
    Str(String),
    Bytes(Vec<u8>),
    List(Vec<Value>),
    Dict(Vec<(Value, Value)>),
    Structure(Structure),
    Foreign(Foreign),
}

/// The view of a [`Structure`].
pub ghost struct Record {
    pub tag: u8,
    pub fields: Seq<Term>,
}

/// The view of a [`Value`].
pub ghost enum Term {
    Null,
    Bool(bool),
    Int(i64),
    Float(u64),
    Str(Seq<char>),
    Bytes(Seq<u8>),
    List(Seq<Term>),
    Dict(Seq<(Term, Term)>),
    Structure(Record),
    Foreign(Foreign),
}

impl Value {
    /// The term that this value stands for; `self@` is short for it.
    pub open spec fn term(&self) -> Term
        decreases self,
    {
        match self {
            Value::Null => Term::Null,
            Value::Bool(b) => Term::Bool(*b),
            Value::Int(i) => Term::Int(*i),
            Value::Float(bits) => Term::Float(*bits),
            Value::Str(s) => Term::Str(s@),
            Value::Bytes(b) => Term::Bytes(b@),
            Value::List(items) => Term::List(
                Seq::new(
                    items@.len(),
                    |i: int|
                        if 0 <= i < items@.len() {
                            items@[i].term()
                        } else {
                            Term::Null
                        },
                ),
            ),
            Value::Dict(entries) => Term::Dict(
                Seq::new(
                    entries@.len(),
                    |i: int|
                        if 0 <= i < entries@.len() {
                            (entries@[i].0.term(), entries@[i].1.term())
                        } else {
                            (Term::Null, Term::Null)
                        },
                ),
            ),
            Value::Structure(s) => Term::Structure(
                Record {
                    tag: s.tag,
                    fields: Seq::new(
                        s.fields@.len(),
                        |i: int|
                            if 0 <= i < s.fields@.len() {
                                s.fields@[i].term()
                            } else {
                                Term::Null
                            },
                    ),
                },
            ),
            Value::Foreign(f) => Term::Foreign(*f),
        }
    }
}

impl View for Value {
    type V = Term;

    open spec fn view(&self) -> Term {
        self.term()
    }
}

impl View for Structure {
    type V = Record;

    open spec fn view(&self) -> Record {
        Record { tag: self.tag, fields: views(self.fields@) }
    }
}

/// The views of a sequence of values, item by item.
pub open spec fn views(items: Seq<Value>) -> Seq<Term> {
    Seq::new(items.len(), |i: int| items[i]@)
}

/// The views of a sequence of entries, key and value.
pub open spec fn entry_views(entries: Seq<(Value, Value)>) -> Seq<(Term, Term)> {
    Seq::new(entries.len(), |i: int| (entries[i].0@, entries[i].1@))
}

/// What the view of each composite value is, in terms of [`views`] and
/// [`entry_views`].
pub proof fn lemma_view_unfold(v: Value)
    ensures
        v matches Value::List(items) ==> v@ == Term::List(views(items@)),
        v matches Value::Dict(entries) ==> v@ == Term::Dict(entry_views(entries@)),
        v matches Value::Structure(s) ==> v@ == Term::Structure(s@),
{
    match v {
        Value::List(items) => {
            assert(v@->List_0 =~= views(items@));
        },
        Value::Dict(entries) => {
            assert(v@->Dict_0 =~= entry_views(entries@));
        },
        Value::Structure(s) => {
            assert(v@->Structure_0.fields =~= s@.fields);
        },
        _ => {},
    }
}

/// Whether every item is well formed.
pub open spec fn all_well_formed(items: Seq<Term>) -> bool
    decreases items,
{
    forall|i: int| 0 <= i < items.len() ==> (#[trigger] items[i]).well_formed()
}

impl Term {
    /// Whether the value is one that the format can hold: the keys of
    /// every dictionary in it are strings, and no two entries of a
    /// dictionary have the same key.
    pub open spec fn well_formed(self) -> bool
        decreases self,
    {
        match self {
            Term::List(items) => all_well_formed(items),
            Term::Dict(entries) => {
                &&& forall|i: int|
                    0 <= i < entries.len() ==> (#[trigger] entries[i]).0 is Str
                        && entries[i].1.well_formed()
                &&& forall|i: int, j: int|
                    0 <= i < j < entries.len() ==> (#[trigger] entries[i]).0
                        != (#[trigger] entries[j]).0
            },
            Term::Structure(record) => all_well_formed(record.fields),
            _ => true,
        }
    }

    /// Whether the value holds no other values and is no application
    /// object: a null, a boolean, a number, a string or a byte sequence.
    pub open spec fn scalar(self) -> bool {
        !(self is List || self is Dict || self is Structure || self is Foreign)
    }

    /// The kind of the value.
    pub open spec fn kind(self) -> Kind {
        match self {
            Term::Null => Kind::Null,
            Term::Bool(_) => Kind::Bool,
            Term::Int(_) => Kind::Int,
            Term::Float(_) => Kind::Float,
            Term::Str(_) => Kind::Str,
            Term::Bytes(_) => Kind::Bytes,
            Term::List(_) => Kind::List,
            Term::Dict(_) => Kind::Dict,
            Term::Structure(_) => Kind::Structure,
            Term::Foreign(f) => Kind::Foreign(f.kind),
        }
    }
}

impl Value {
    /// The kind of the value.
    pub fn kind(&self) -> (kind: Kind)
        ensures
            kind == self@.kind(),
    {
        match self {
            Value::Null => Kind::Null,
            Value::Bool(_) => Kind::Bool,
            Value::Int(_) => Kind::Int,
            Value::Float(_) => Kind::Float,
            Value::Str(_) => Kind::Str,
            Value::Bytes(_) => Kind::Bytes,
            Value::List(_) => Kind::List,
            Value::Dict(_) => Kind::Dict,
            Value::Structure(_) => Kind::Structure,
            Value::Foreign(f) => Kind::Foreign(f.kind),
        }
    }
}

/// Equality of structures: two records are equal if and only if their tags
/// are equal and their fields are equal one by one, in order.
pub proof fn lemma_record_equality(a: Record, b: Record)
    ensures
        a == b <==> {
            &&& a.tag == b.tag
            &&& a.fields.len() == b.fields.len()
            &&& forall|i: int| 0 <= i < a.fields.len() ==> a.fields[i] == b.fields[i]
        },
{
    if a.tag == b.tag && a.fields.len() == b.fields.len() && (forall|i: int|
        0 <= i < a.fields.len() ==> a.fields[i] == b.fields[i]) {
        assert(a.fields =~= b.fields);
    }
}

/// Equal structures have equal hashes, and so have equal values.
pub proof fn lemma_equal_hashes(a: Structure, b: Structure, x: Value, y: Value)
    ensures
        a@ == b@ ==> a@.hash() == b@.hash(),
        x@ == y@ ==> x@.hash() == y@.hash(),
{
}

/// The tag that was given for a structure is not one byte long.
#[derive(Clone, Copy, Debug, PartialEq, Eq, Structural)]
pub struct InvalidTag {
    /// How many bytes were given.
    pub len: usize,
}

/// The comparisons that can be asked of two structures.
#[derive(Clone, Copy, Debug, PartialEq, Eq, Structural)]
pub enum CompareOp {
    Lt,
    Le,
    Eq,
    Ne,
    Gt,
    Ge,
}

impl Structure {
    /// A structure with the tag that `tag` holds as its one byte.
    pub fn new(tag: &[u8], fields: Vec<Value>) -> (r: Result<Structure, InvalidTag>)
        ensures
            tag@.len() == 1 ==> r == Ok::<Structure, InvalidTag>(
                Structure { tag: tag@[0], fields },
            ),
            tag@.len() != 1 ==> r == Err::<Structure, InvalidTag>(InvalidTag { len: tag.len() }),
    {
        if tag.len() != 1 {
            return Err(InvalidTag { len: tag.len() });
        }
        let tag = tag[0];
        Ok(Structure { tag, fields })
    }

    /// The tag.
    pub fn read_tag(&self) -> (tag: u8)
        ensures
            tag == self.tag,
    {
        self.tag
    }

    /// The fields, in order.
    pub fn read_fields(&self) -> (fields: &Vec<Value>)
        ensures
            fields == self.fields,
    {
        &self.fields
    }

    /// The answer to a comparison of two structures: structures are equal
    /// or not, and have no order.
    pub fn rich_compare(&self, other: &Structure, op: CompareOp) -> (r: Option<bool>)
        ensures
            r == match op {
                CompareOp::Eq => Some(self@ == other@),
                CompareOp::Ne => Some(self@ != other@),
                _ => None::<bool>,
            },
    {
        match op {
            CompareOp::Eq => Some(same_structure(self, other)),
            CompareOp::Ne => Some(!same_structure(self, other)),
            _ => None,
        }
    }

    /// The hash of the structure.
    pub fn hash(&self) -> (h: u64)
        ensures
            h == self@.hash(),
        decreases self,
    {
        let fields_hash = hash_items(&self.fields, 0);
        fields_hash.wrapping_add(self.tag as u64)
    }
}

impl Value {
    /// Whether two values are the same: of the same kind and the same part
    /// by part, in order.
    pub fn same(&self, other: &Value) -> (r: bool)
        ensures
            r == (self@ == other@),
        decreases self,
    {
        proof {
            lemma_view_unfold(*self);
            lemma_view_unfold(*other);
        }
        match (self, other) {
            (Value::Null, Value::Null) => true,
            (Value::Bool(a), Value::Bool(b)) => *a == *b,
            (Value::Int(a), Value::Int(b)) => *a == *b,
            (Value::Float(a), Value::Float(b)) => *a == *b,
            (Value::Str(a), Value::Str(b)) => *a == *b,
            (Value::Bytes(a), Value::Bytes(b)) => same_bytes(a, b),
            (Value::List(a), Value::List(b)) => same_items(a, b),
            (Value::Dict(a), Value::Dict(b)) => same_entries(a, b),
            (Value::Structure(a), Value::Structure(b)) => same_structure(a, b),
            (Value::Foreign(a), Value::Foreign(b)) => a.kind == b.kind && a.handle == b.handle,
            _ => false,
        }
    }

    /// The hash of the value.
    pub fn hash(&self) -> (h: u64)
        ensures
            h == self@.hash(),
        decreases self,
    {
        proof {
            lemma_view_unfold(*self);
            lemma_radix();
        }
        match self {
            Value::Null => 0,
            Value::Bool(b) => mix(1, if *b { 1 } else { 0 }),
            Value::Int(i) => mix(2, i64_to_unsigned(*i, 8)),
            Value::Float(bits) => mix(3, *bits),
            Value::Str(s) => hash_bytes(s.as_str().as_bytes(), 4),
            Value::Bytes(b) => hash_bytes(b.as_slice(), 5),
            Value::List(items) => hash_items(items, 6),
            Value::Dict(entries) => hash_entries(entries, 7),
            Value::Structure(s) => s.hash(),
            Value::Foreign(f) => mix(mix(9, f.kind), f.handle),
        }
    }
}

/// One step of a hash: what was hashed so far, then one more number. The
/// order of the steps matters.
#[verifier::when_used_as_spec(mixed)]
pub fn mix(h: u64, x: u64) -> (r: u64)
    ensures
        r == mixed(h, x),
{
    h.wrapping_mul(31).wrapping_add(x)
}

/// One step of a hash.
pub open spec fn mixed(h: u64, x: u64) -> u64 {
    h.wrapping_mul(31).wrapping_add(x)
}

/// The hash of bytes, in order, behind what was hashed so far.
pub open spec fn bytes_hash(bytes: Seq<u8>, h: u64) -> u64
    decreases bytes.len(),
{
    if bytes.len() == 0 {
        h
    } else {
        bytes_hash(bytes.drop_first(), mixed(h, bytes[0] as u64))
    }
}

/// The hash of the items from `from` on, in order, behind what was hashed
/// so far.
pub open spec fn items_hash(items: Seq<Term>, from: int, h: u64) -> u64
    decreases items, items.len() - from,
{
    if 0 <= from < items.len() {
        items_hash(items, from + 1, mixed(h, items[from].hash()))
    } else {
        h
    }
}

/// The hash of the entries from `from` on, key and value, in order, behind
/// what was hashed so far.
pub open spec fn entries_hash(entries: Seq<(Term, Term)>, from: int, h: u64) -> u64
    decreases entries, entries.len() - from,
{
    if 0 <= from < entries.len() {
        entries_hash(
            entries,
            from + 1,
            mixed(mixed(h, entries[from].0.hash()), entries[from].1.hash()),
        )
    } else {
        h
    }
}

impl Term {
    /// The hash of a value: a number that equal values share.
    pub open spec fn hash(self) -> u64
        decreases self, 0int,
    {
        match self {
            Term::Null => 0,
            Term::Bool(b) => mixed(1, if b { 1 } else { 0 }),
            Term::Int(i) => mixed(2, to_unsigned(i as int, 8) as u64),
            Term::Float(bits) => mixed(3, bits),
            Term::Str(s) => bytes_hash(encode_utf8(s), 4),
            Term::Bytes(b) => bytes_hash(b, 5),
            Term::List(items) => items_hash(items, 0, 6),
            Term::Dict(entries) => entries_hash(entries, 0, 7),
            Term::Structure(record) => items_hash(record.fields, 0, 0).wrapping_add(
                record.tag as u64,
            ),
            Term::Foreign(f) => mixed(mixed(9, f.kind), f.handle),
        }
    }
}

impl Record {
    /// The hash of a structure: the tag, combined with the hashes of the
    /// fields in their order.
    pub open spec fn hash(self) -> u64 {
        Term::Structure(self).hash()
    }
}

fn hash_bytes(bytes: &[u8], start: u64) -> (h: u64)
    ensures
        h == bytes_hash(bytes@, start),
{
    let mut h = start;
    let mut i: usize = 0;
    assert(bytes@.skip(0) =~= bytes@);
    while i < bytes.len()
        invariant
            i <= bytes@.len(),
            bytes_hash(bytes@, start) == bytes_hash(bytes@.skip(i as int), h),
        decreases bytes@.len() - i,
    {
        proof {
            assert(bytes@.skip(i as int).drop_first() =~= bytes@.skip(i + 1));
        }
        h = mix(h, bytes[i] as u64);
        i = i + 1;
    }
    h
}

fn hash_items(items: &Vec<Value>, start: u64) -> (h: u64)
    ensures
        h == items_hash(views(items@), 0, start),
    decreases items,
{
    let mut h = start;
    let mut i: usize = 0;
    while i < items.len()
        invariant
            i <= items@.len(),
            items_hash(views(items@), 0, start) == items_hash(views(items@), i as int, h),
        decreases items@.len() - i,
    {
        h = mix(h, items[i].hash());
        i = i + 1;
    }
    h
}

fn hash_entries(entries: &Vec<(Value, Value)>, start: u64) -> (h: u64)
    ensures
        h == entries_hash(entry_views(entries@), 0, start),
    decreases entries,
{
    let mut h = start;
    let mut i: usize = 0;
    while i < entries.len()
        invariant
            i <= entries@.len(),
            entries_hash(entry_views(entries@), 0, start) == entries_hash(
                entry_views(entries@),
                i as int,
                h,
            ),
        decreases entries@.len() - i,
    {
        h = mix(mix(h, entries[i].0.hash()), entries[i].1.hash());
        i = i + 1;
    }
    h
}

fn same_bytes(a: &Vec<u8>, b: &Vec<u8>) -> (r: bool)
    ensures
        r == (a@ == b@),
{
    if a.len() != b.len() {
        return false;
    }
    let mut i: usize = 0;
    while i < a.len()
        invariant
            i <= a@.len(),
            a@.len() == b@.len(),
            forall|j: int| 0 <= j < i ==> a@[j] == b@[j],
        decreases a@.len() - i,
    {
        if a[i] != b[i] {
            return false;
        }
        i = i + 1;
    }
    assert(a@ =~= b@);
    true
}

fn same_items(a: &Vec<Value>, b: &Vec<Value>) -> (r: bool)
    ensures
        r == (views(a@) == views(b@)),
    decreases a,
{
    if a.len() != b.len() {
        assert(views(a@).len() != views(b@).len());
        return false;
    }
    let mut i: usize = 0;
    while i < a.len()
        invariant
            i <= a@.len(),
            a@.len() == b@.len(),
            forall|j: int| 0 <= j < i ==> a@[j]@ == b@[j]@,
        decreases a@.len() - i,
    {
        if !a[i].same(&b[i]) {
            assert(views(a@)[i as int] != views(b@)[i as int]);
            return false;
        }
        i = i + 1;
    }
    assert(views(a@) =~= views(b@));
    true
}

fn same_entries(a: &Vec<(Value, Value)>, b: &Vec<(Value, Value)>) -> (r: bool)
    ensures
        r == (entry_views(a@) == entry_views(b@)),
    decreases a,
{
    if a.len() != b.len() {
        assert(entry_views(a@).len() != entry_views(b@).len());
        return false;
    }
    let mut i: usize = 0;
    while i < a.len()
        invariant
            i <= a@.len(),
            a@.len() == b@.len(),
            forall|j: int| 0 <= j < i ==> a@[j].0@ == b@[j].0@ && a@[j].1@ == b@[j].1@,
        decreases a@.len() - i,
    {
        if !a[i].0.same(&b[i].0) || !a[i].1.same(&b[i].1) {
            assert(entry_views(a@)[i as int] != entry_views(b@)[i as int]);
            return false;
        }
        i = i + 1;
    }
    assert(entry_views(a@) =~= entry_views(b@));
    true
}

fn same_structure(a: &Structure, b: &Structure) -> (r: bool)
    ensures
        r == (a@ == b@),
    decreases a,
{
    a.tag == b.tag && same_items(&a.fields, &b.fields)
}

fn clone_items(items: &Vec<Value>) -> (copy: Vec<Value>)
    ensures
        views(copy@) == views(items@),
    decreases items,
{
    let mut copy: Vec<Value> = Vec::new();
    let mut i: usize = 0;
    while i < items.len()
        invariant
            i <= items@.len(),
            copy@.len() == i,
            forall|j: int| 0 <= j < i ==> copy@[j]@ == items@[j]@,
        decreases items@.len() - i,
    {
        copy.push(items[i].clone());
        i = i + 1;
    }
    assert(views(copy@) =~= views(items@));
    copy
}

fn clone_entries(entries: &Vec<(Value, Value)>) -> (copy: Vec<(Value, Value)>)
    ensures
        entry_views(copy@) == entry_views(entries@),
    decreases entries,
{
    let mut copy: Vec<(Value, Value)> = Vec::new();
    let mut i: usize = 0;
    while i < entries.len()
        invariant
            i <= entries@.len(),
            copy@.len() == i,
            forall|j: int|
                0 <= j < i ==> copy@[j].0@ == entries@[j].0@ && copy@[j].1@ == entries@[j].1@,
        decreases entries@.len() - i,
    {
        copy.push((entries[i].0.clone(), entries[i].1.clone()));
        i = i + 1;
    }
    assert(entry_views(copy@) =~= entry_views(entries@));
    copy
}

impl Clone for Value {
    /// A copy that stands for the same term.
    fn clone(&self) -> (copy: Value)
        ensures
            copy@ == self@,
        decreases self,
    {
        let copy = match self {
            Value::Null => Value::Null,
            Value::Bool(b) => Value::Bool(*b),
            Value::Int(i) => Value::Int(*i),
            Value::Float(bits) => Value::Float(*bits),
            Value::Str(s) => Value::Str(s.clone()),
            Value::Bytes(b) => Value::Bytes(slice_to_vec(b.as_slice())),
            Value::List(items) => Value::List(clone_items(items)),
            Value::Dict(entries) => Value::Dict(clone_entries(entries)),
            Value::Structure(s) => Value::Structure(s.clone()),
            Value::Foreign(f) => Value::Foreign(*f),
        };
        proof {
            lemma_view_unfold(*self);
            lemma_view_unfold(copy);
        }
        copy
    }
}

impl Clone for Structure {
    /// A copy that stands for the same record.
    fn clone(&self) -> (copy: Structure)
        ensures
            copy@ == self@,
        decreases self,
    {
        Structure { tag: self.tag, fields: clone_items(&self.fields) }
    }
}

impl PartialEq for Value {
    fn eq(&self, other: &Value) -> (r: bool) {
        self.same(other)
    }
}

impl vstd::std_specs::cmp::PartialEqSpecImpl for Value {
    open spec fn obeys_eq_spec() -> bool {
        true
    }

    open spec fn eq_spec(&self, other: &Value) -> bool {
        self@ == other@
    }
}

impl PartialEq for Structure {
    /// Structures are equal if their tags are equal and their fields are,
    /// one by one and in order.
    fn eq(&self, other: &Structure) -> (r: bool) {
        same_structure(self, other)
    }
}

impl vstd::std_specs::cmp::PartialEqSpecImpl for Structure {
    open spec fn obeys_eq_spec() -> bool {
        true
    }

    open spec fn eq_spec(&self, other: &Structure) -> bool {
        self@ == other@
    }
}

} // verus!
