//! The whole compilation pipeline for one command type.
//!
//! A single-shape (record-like) type declares one command pattern and
//! one field shape: its pattern is parsed and both codecs are compiled
//! against the shape.  A variant-group type resolves one command per
//! variant by layering each variant's attributes over the group's, and
//! compiles a codec pair per variant against that variant's own shape;
//! decoding then tries each variant's decoder in declaration order.

use crate::attributes::{spec_apply, Attribute, AttributeError, ScpiAttributes};
use crate::decode::{command_decode, Decoder};
use crate::display::{command_display, spec_compile, Encoder};
use crate::pattern::{parse_command, spec_tokenize, TokV};
use crate::schema::{CompileError, FieldV, Shape, ShapeV};
use vstd::prelude::*;

verus! {

/// What compiling one pattern text against one shape means: the token
/// sequence and the field descriptors, or the first compile-time error.
pub open spec fn spec_compile_command(p: Seq<u8>, shape: ShapeV) -> Result<
    (Seq<TokV>, Seq<FieldV>),
    CompileError,
> {
    match spec_tokenize(p) {
        Ok(ts) => match spec_compile(ts, shape) {
            Ok(fs) => Ok((ts, fs)),
            Err(e) => Err(e),
        },
        Err(pe) => Err(CompileError::MalformedPattern(pe)),
    }
}

/// Compiles a command: parses the pattern text and builds the decoder
/// and the encoder over the same token sequence and the same field
/// binding, so the two walk the pattern identically.
pub fn compile_codecs(pattern: &[u8], shape: &Shape) -> (r: Result<(Decoder, Encoder), CompileError>)
    ensures
        match r {
            Ok(pair) => {
                &&& spec_compile_command(pattern@, shape@) == Ok::<
                    (Seq<TokV>, Seq<FieldV>),
                    CompileError,
                >((pair.0.toks(), pair.0.fields_v()))
                &&& pair.1.toks() == pair.0.toks()
                &&& pair.1.fields_v() == pair.0.fields_v()
                &&& pair.0.wf()
                &&& pair.1.wf()
            },
            Err(e) => spec_compile_command(pattern@, shape@) == Err::<
                (Seq<TokV>, Seq<FieldV>),
                CompileError,
            >(e),
        },
{
    let tokens = match parse_command(pattern) {
        Ok(ts) => ts,
        Err(pe) => {
            return Err(CompileError::MalformedPattern(pe));
        },
    };
    let decoder = match command_decode(&tokens, shape) {
        Ok(d) => d,
        Err(e) => {
            return Err(e);
        },
    };
    let encoder = match command_display(&tokens, shape) {
        Ok(d) => d,
        Err(e) => {
            return Err(e);
        },
    };
    Ok((decoder, encoder))
}

/// One variant of a command group: its own attributes and field shape.
pub struct VariantDecl {
    pub attrs: Vec<Attribute>,
    pub shape: Shape,
}

/// Why deriving a variant group's codecs failed.
#[derive(Clone, Copy, PartialEq, Eq, Structural, Debug)]
pub enum DeriveError {
    /// A variant's attribute resolution failed.
    Attribute(AttributeError),
    /// A variant's pattern or shape failed to compile.
    Compile(CompileError),
}

/// What deriving one variant means: its attributes layered over the
/// group's base, the resolved command compiled against its shape.
pub open spec fn spec_variant_codec(base: Option<Seq<u8>>, v: VariantDecl) -> Result<
    (Seq<TokV>, Seq<FieldV>),
    DeriveError,
> {
    match spec_apply(base, v.attrs@) {
        Ok(Some(c)) => match spec_compile_command(c, v.shape@) {
            Ok(p) => Ok(p),
            Err(ce) => Err(DeriveError::Compile(ce)),
        },
        Ok(None) => Err(DeriveError::Attribute(AttributeError::MissingCommand(0))),
        Err(e) => Err(DeriveError::Attribute(e)),
    }
}

/// Where and why a variant group's derivation failed: every variant
/// before `i` derived a codec pair, and the one at `i` raised `e` — its
/// attributes' own error, a missing command reported under the variant's
/// index, or a compile error of its resolved pattern.
pub open spec fn derive_failure_at(
    base: Option<Seq<u8>>,
    variants: Seq<VariantDecl>,
    e: DeriveError,
    i: int,
) -> bool {
    &&& 0 <= i < variants.len()
    &&& (forall|j: int| 0 <= j < i ==> spec_variant_codec(base, #[trigger] variants[j]) is Ok)
    &&& match e {
        DeriveError::Attribute(err) => {
            ||| spec_apply(base, variants[i].attrs@) == Err::<Option<Seq<u8>>, AttributeError>(err)
            ||| (err == AttributeError::MissingCommand(i as usize) && spec_apply(
                base,
                variants[i].attrs@,
            ) == Ok::<Option<Seq<u8>>, AttributeError>(None))
        },
        DeriveError::Compile(ce) => spec_apply(base, variants[i].attrs@) matches Ok(Some(c))
            && spec_compile_command(c, variants[i].shape@) == Err::<
            (Seq<TokV>, Seq<FieldV>),
            CompileError,
        >(ce),
    }
}

/// Compiles one codec pair per variant of a command group, layering each
/// variant's attributes over the group-level record to resolve its
/// pattern.  Fails on the first variant that resolves or compiles badly.
pub fn compile_variant_codecs(base: &ScpiAttributes, variants: &Vec<VariantDecl>) -> (r: Result<
    Vec<(Decoder, Encoder)>,
    DeriveError,
>)
    ensures
        match r {
            Ok(codecs) => {
                &&& codecs@.len() == variants@.len()
                &&& forall|i: int|
                    0 <= i < variants@.len() ==> {
                        let pair = #[trigger] codecs@[i];
                        &&& spec_variant_codec(
                            crate::attributes::command_view(base.command),
                            variants@[i],
                        ) == Ok::<(Seq<TokV>, Seq<FieldV>), DeriveError>(
                            (pair.0.toks(), pair.0.fields_v()),
                        )
                        &&& pair.1.toks() == pair.0.toks()
                        &&& pair.1.fields_v() == pair.0.fields_v()
                        &&& pair.0.wf()
                        &&& pair.1.wf()
                    }
            },
            Err(e) => exists|i: int|
                derive_failure_at(
                    crate::attributes::command_view(base.command),
                    variants@,
                    e,
                    i,
                ),
        },
{
    let ghost bv = crate::attributes::command_view(base.command);
    let mut codecs: Vec<(Decoder, Encoder)> = Vec::new();
    let mut i: usize = 0;
    while i < variants.len()
        invariant
            i <= variants@.len(),
            bv == crate::attributes::command_view(base.command),
            codecs@.len() == i,
            forall|j: int|
                0 <= j < i ==> {
                    let pair = codecs@[j];
                    &&& #[trigger] spec_variant_codec(bv, #[trigger] variants@[j]) == Ok::<
                        (Seq<TokV>, Seq<FieldV>),
                        DeriveError,
                    >((pair.0.toks(), pair.0.fields_v()))
                    &&& pair.1.toks() == pair.0.toks()
                    &&& pair.1.fields_v() == pair.0.fields_v()
                    &&& pair.0.wf()
                    &&& pair.1.wf()
                },
        decreases variants@.len() - i,
    {
        let layered = base.duplicate();
        let resolved = match layered.apply(&variants[i].attrs) {
            Ok(out) => out,
            Err(e) => {
                proof {
                    assert(derive_failure_at(bv, variants@, DeriveError::Attribute(e), i as int));
                }
                return Err(DeriveError::Attribute(e));
            },
        };
        let command = match resolved.command {
            Some(c) => c,
            None => {
                let e = DeriveError::Attribute(AttributeError::MissingCommand(i));
                proof {
                    assert(derive_failure_at(bv, variants@, e, i as int));
                }
                return Err(e);
            },
        };
        let pair = match compile_codecs(command.as_slice(), &variants[i].shape) {
            Ok(p) => p,
            Err(ce) => {
                proof {
                    assert(derive_failure_at(bv, variants@, DeriveError::Compile(ce), i as int));
                }
                return Err(DeriveError::Compile(ce));
            },
        };
        codecs.push(pair);
        i = i + 1;
    }
    Ok(codecs)
}

} // verus!
