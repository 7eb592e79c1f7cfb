//! The field schema and its adapter.
//!
//! A host type presents its payload in one of three recognized shapes: no
//! fields at all, an ordered list of unnamed slots, or an ordered list of
//! named fields.  The adapter normalizes all three into one uniform
//! ordered list of field descriptors, each carrying an optional display
//! name and the value kind whose codec the compilers will invoke.  Any
//! other shape (a union) has no stable field order and is rejected.

use crate::pattern::PatternError;
use crate::value::ValueKind;
use vstd::prelude::*;

verus! {

/// One normalized schema slot: its optional display name and the value
/// kind whose parse/format/default capability the compilers use for it.
/// The slot's position is its index in the descriptor list.
pub struct FieldDescriptor {
    pub name: Option<Vec<u8>>,
    pub kind: ValueKind,
}

/// The mathematical view of a field descriptor.
pub struct FieldV {
    pub name: Option<Seq<u8>>,
    pub kind: ValueKind,
}

impl View for FieldDescriptor {
    type V = FieldV;

    open spec fn view(&self) -> FieldV {
        FieldV {
            name: match self.name {
                Some(n) => Some(n@),
                None => None,
            },
            kind: self.kind,
        }
    }
}

/// The view of a descriptor list.
pub open spec fn fields_view(fs: Seq<FieldDescriptor>) -> Seq<FieldV> {
    fs.map_values(|f: FieldDescriptor| f@)
}

/// The value kinds of a descriptor list, in order.
pub open spec fn kinds_of(fs: Seq<FieldV>) -> Seq<ValueKind> {
    fs.map_values(|f: FieldV| f.kind)
}

/// One declared field of a named (record-like) shape.
pub struct NamedField {
    pub name: Vec<u8>,
    pub kind: ValueKind,
}

/// A host type's field shape, as the excluded attribute-resolution layer
/// hands it over.
pub enum Shape {
    /// No payload fields.
    Unit,
    /// Ordered unnamed slots (tuple-like), each with its value kind.
    Unnamed(Vec<ValueKind>),
    /// Ordered named fields (record-like), in declaration order.
    Named(Vec<NamedField>),
    /// A union shape: no stable field order, never supported.
    Union,
}

/// The mathematical view of a shape.
pub enum ShapeV {
    Unit,
    Unnamed(Seq<ValueKind>),
    Named(Seq<FieldV>),
    Union,
}

impl View for Shape {
    type V = ShapeV;

    open spec fn view(&self) -> ShapeV {
        match self {
            Shape::Unit => ShapeV::Unit,
            Shape::Unnamed(ks) => ShapeV::Unnamed(ks@),
            Shape::Named(nfs) => ShapeV::Named(
                nfs@.map_values(|f: NamedField| FieldV { name: Some(f.name@), kind: f.kind }),
            ),
            Shape::Union => ShapeV::Union,
        }
    }
}

/// An error found once, when a command's pattern and schema are compiled.
#[derive(Clone, Copy, PartialEq, Eq, Structural, Debug)]
pub enum CompileError {
    /// The pattern text breaks the grammar.
    MalformedPattern(PatternError),
    /// The field shape is none of the three recognized kinds.
    UnsupportedShape,
    /// The pattern holds more placeholders than the schema has fields.
    TooManyParameters,
}

/// What adapting a shape yields: descriptors indexed `0..N` for the three
/// recognized shapes, or a rejection for a union.
pub open spec fn spec_adapt(s: ShapeV) -> Result<Seq<FieldV>, CompileError> {
    match s {
        ShapeV::Unit => Ok(Seq::empty()),
        ShapeV::Unnamed(ks) => Ok(
            Seq::new(ks.len(), |i: int| FieldV { name: None, kind: ks[i] }),
        ),
        ShapeV::Named(nfs) => Ok(nfs),
        ShapeV::Union => Err(CompileError::UnsupportedShape),
    }
}

proof fn lemma_fields_view_push(fs: Seq<FieldDescriptor>, f: FieldDescriptor)
    ensures
        fields_view(fs.push(f)) == fields_view(fs) + seq![f@],
{
    assert(fields_view(fs.push(f)) =~= fields_view(fs) + seq![f@]);
}

/// Copies a byte string.
pub fn clone_bytes(v: &Vec<u8>) -> (r: Vec<u8>)
    ensures
        r@ == v@,
{
    let mut r: Vec<u8> = Vec::new();
    let mut i: usize = 0;
    while i < v.len()
        invariant
            i <= v@.len(),
            r@ == v@.subrange(0, i as int),
        decreases v@.len() - i,
    {
        r.push(v[i]);
        assert(r@ =~= v@.subrange(0, i + 1 as int));
        i = i + 1;
    }
    assert(r@ =~= v@);
    r
}

/// Normalizes a field shape into the ordered descriptor list the two
/// compilers bind placeholders against.  Pure; fails exactly on the
/// unsupported union shape.
pub fn adapt(shape: &Shape) -> (r: Result<Vec<FieldDescriptor>, CompileError>)
    ensures
        match r {
            Ok(fs) => spec_adapt(shape@) == Ok::<Seq<FieldV>, CompileError>(fields_view(fs@)),
            Err(e) => spec_adapt(shape@) == Err::<Seq<FieldV>, CompileError>(e),
        },
{
    match shape {
        Shape::Unit => {
            let fs: Vec<FieldDescriptor> = Vec::new();
            assert(fields_view(fs@) =~= Seq::<FieldV>::empty());
            Ok(fs)
        },
        Shape::Unnamed(ks) => {
            let mut fs: Vec<FieldDescriptor> = Vec::new();
            let mut i: usize = 0;
            while i < ks.len()
                invariant
                    i <= ks@.len(),
                    fields_view(fs@) == Seq::new(
                        i as nat,
                        |j: int| FieldV { name: None, kind: ks@[j] },
                    ),
                decreases ks@.len() - i,
            {
                let fd = FieldDescriptor { name: None, kind: ks[i] };
                proof {
                    lemma_fields_view_push(fs@, fd);
                }
                fs.push(fd);
                assert(fields_view(fs@) =~= Seq::new(
                    (i + 1) as nat,
                    |j: int| FieldV { name: None, kind: ks@[j] },
                ));
                i = i + 1;
            }
            assert(fields_view(fs@) =~= Seq::new(
                ks@.len(),
                |j: int| FieldV { name: None, kind: ks@[j] },
            ));
            Ok(fs)
        },
        Shape::Named(nfs) => {
            let mut fs: Vec<FieldDescriptor> = Vec::new();
            let mut i: usize = 0;
            while i < nfs.len()
                invariant
                    i <= nfs@.len(),
                    fields_view(fs@) == nfs@.map_values(
                        |f: NamedField| FieldV { name: Some(f.name@), kind: f.kind },
                    ).take(i as int),
                decreases nfs@.len() - i,
            {
                let name = clone_bytes(&nfs[i].name);
                let fd = FieldDescriptor { name: Some(name), kind: nfs[i].kind };
                proof {
                    lemma_fields_view_push(fs@, fd);
                }
                fs.push(fd);
                assert(fields_view(fs@) =~= nfs@.map_values(
                    |f: NamedField| FieldV { name: Some(f.name@), kind: f.kind },
                ).take(i + 1 as int));
                i = i + 1;
            }
            assert(fields_view(fs@) =~= nfs@.map_values(
                |f: NamedField| FieldV { name: Some(f.name@), kind: f.kind },
            ));
            Ok(fs)
        },
        Shape::Union => Err(CompileError::UnsupportedShape),
    }
}

} // verus!
