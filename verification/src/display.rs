//! The encoder compiler: from pattern tokens and a field schema to a
//! template-substitution procedure.
//!
//! Encoding walks the token sequence once, left to right.  Required and
//! optional literals contribute their text verbatim (optional spans are
//! always rendered on output), a `Space` token contributes exactly one
//! space, and each placeholder contributes the formatted text of the next
//! bound field, in ascending field order starting at field `0` — the same
//! binding the decoder uses.  Fields beyond the last placeholder are
//! never rendered.  Encoding a well-typed instance cannot fail.

use crate::pattern::{
    count_params, lemma_count_params_concat, lemma_count_params_nonneg, lemma_count_params_split,
    seq_add_assoc_all, toks_view, Tok, TokV,
};
use crate::schema::{
    fields_view, kinds_of, spec_adapt, CompileError, FieldDescriptor, FieldV, Shape,
};
use crate::value::{format_value, instance_matches, spec_format, Value, ValueKind};
use vstd::prelude::*;

verus! {

/// The bytes the encoder emits for tokens `ts`, substituting fields of
/// `vals` from index `fi` on.
pub open spec fn spec_encode(ts: Seq<TokV>, vals: Seq<Value>, fi: int) -> Seq<u8>
    decreases ts.len(),
{
    if ts.len() == 0 {
        Seq::empty()
    } else {
        let head = match ts[0] {
            TokV::Required(t) => t,
            TokV::Optional(t) => t,
            TokV::Space => seq![32u8],
            TokV::Parameter => if 0 <= fi < vals.len() {
                spec_format(vals[fi])
            } else {
                Seq::empty()
            },
        };
        let next = if ts[0] is Parameter {
            fi + 1
        } else {
            fi
        };
        head + spec_encode(ts.skip(1), vals, next)
    }
}

/// What the whole pattern and schema compile to on the encoding side.
/// Fails exactly where compilation fails: on an unsupported shape, or on
/// more placeholders than fields.
pub open spec fn spec_compile(ts: Seq<TokV>, shape: crate::schema::ShapeV) -> Result<
    Seq<FieldV>,
    CompileError,
> {
    match spec_adapt(shape) {
        Ok(fs) => if count_params(ts) > fs.len() {
            Err(CompileError::TooManyParameters)
        } else {
            Ok(fs)
        },
        Err(e) => Err(e),
    }
}

/// A compiled encoder: the immutable token sequence and descriptor list,
/// bound once at compile time with placeholders a contiguous prefix of
/// the fields.
pub struct Encoder {
    tokens: Vec<Tok>,
    fields: Vec<FieldDescriptor>,
}

impl Encoder {
    /// The token sequence this encoder renders.
    pub closed spec fn toks(&self) -> Seq<TokV> {
        toks_view(self.tokens@)
    }

    /// The descriptor list the placeholders are bound against.
    pub closed spec fn fields_v(&self) -> Seq<FieldV> {
        fields_view(self.fields@)
    }

    /// The value kinds of the fields, in order.
    pub open spec fn kinds(&self) -> Seq<ValueKind> {
        kinds_of(self.fields_v())
    }

    /// Compilation's invariant: the placeholders bind a contiguous prefix
    /// of the fields.
    pub open spec fn wf(&self) -> bool {
        count_params(self.toks()) <= self.fields_v().len()
    }

    /// Renders an instance: the template's literals and separators with
    /// each placeholder replaced by the formatted value of its bound
    /// field.  Always succeeds on a well-typed instance.
    pub fn encode(&self, instance: &Vec<Value>) -> (out: Vec<u8>)
        requires
            self.wf(),
            instance_matches(self.kinds(), instance@),
        ensures
            out@ == spec_encode(self.toks(), instance@, 0),
    {
        let ghost full = self.toks();
        let ghost vals = instance@;
        let mut out: Vec<u8> = Vec::new();
        let mut fi: usize = 0;
        let mut i: usize = 0;
        proof {
            assert(full.skip(0) =~= full);
            lemma_count_params_nonneg(full);
        }
        while i < self.tokens.len()
            invariant
                i <= self.tokens@.len(),
                full == self.toks(),
                vals == instance@,
                self.wf(),
                instance_matches(self.kinds(), instance@),
                fi == count_params(full.take(i as int)),
                fi <= i,
                fi <= vals.len(),
                spec_encode(full, vals, 0) == out@ + spec_encode(full.skip(i as int), vals, fi as int),
            decreases self.tokens@.len() - i,
        {
            let ghost rest = full.skip(i as int);
            proof {
                assert(rest.len() > 0);
                assert(rest[0] == full[i as int]);
                assert(rest.skip(1) =~= full.skip(i + 1 as int));
                assert(full.take(i + 1 as int) =~= full.take(i as int) + seq![full[i as int]]);
                lemma_count_params_concat(full.take(i as int), seq![full[i as int]]);
                assert(seq![full[i as int]].skip(1) =~= Seq::<TokV>::empty());
                assert(count_params(Seq::<TokV>::empty()) == 0);
                assert(count_params(seq![full[i as int]]) == (if full[i as int] is Parameter {
                    1int
                } else {
                    0int
                }));
                lemma_count_params_nonneg(full.take(i + 1 as int));
                seq_add_assoc_all::<u8>();
            }
            let tok: &Tok = &self.tokens[i];
            proof {
                assert(full[i as int] == tok@);
            }
            let ghost out0 = out@;
            match tok {
                Tok::Required(t) => {
                    push_bytes(&mut out, t);
                    assert(out@ == out0 + t@);
                },
                Tok::Optional(t) => {
                    push_bytes(&mut out, t);
                    assert(out@ == out0 + t@);
                },
                Tok::Space => {
                    out.push(32);
                    assert(out@ =~= out0 + seq![32u8]);
                },
                Tok::Parameter => {
                    proof {
                        assert(full[i as int] is Parameter);
                        lemma_count_params_split(full, i as int);
                        lemma_count_params_nonneg(full.skip(i + 1 as int));
                        assert(count_params(rest) == 1 + count_params(full.skip(i + 1 as int)));
                        assert(fi < vals.len());
                    }
                    format_value(&instance[fi], &mut out);
                    assert(out@ == out0 + spec_format(vals[fi as int]));
                    fi = fi + 1;
                },
            }
            i = i + 1;
        }
        assert(full.skip(full.len() as int) =~= Seq::<TokV>::empty());
        assert(spec_encode(Seq::<TokV>::empty(), vals, fi as int) =~= Seq::<u8>::empty());
        assert(out@ =~= out@ + Seq::<u8>::empty());
        out
    }
}

/// Appends a literal's bytes.
fn push_bytes(out: &mut Vec<u8>, t: &Vec<u8>)
    ensures
        final(out)@ == old(out)@ + t@,
{
    let mut k: usize = 0;
    while k < t.len()
        invariant
            k <= t@.len(),
            out@ == old(out)@ + t@.subrange(0, k as int),
        decreases t@.len() - k,
    {
        out.push(t[k]);
        assert(out@ =~= old(out)@ + t@.subrange(0, k + 1 as int));
        k = k + 1;
    }
    assert(out@ =~= old(out)@ + t@);
}

/// Compiles the encoding side of a command: adapts the schema, binds the
/// placeholders to the leading fields, and yields the template renderer.
pub fn command_display(tokens: &Vec<Tok>, shape: &Shape) -> (r: Result<Encoder, CompileError>)
    ensures
        match r {
            Ok(enc) => {
                &&& spec_compile(toks_view(tokens@), shape@) == Ok::<Seq<FieldV>, CompileError>(
                    enc.fields_v(),
                )
                &&& enc.toks() == toks_view(tokens@)
                &&& enc.wf()
            },
            Err(e) => spec_compile(toks_view(tokens@), shape@) == Err::<Seq<FieldV>, CompileError>(
                e,
            ),
        },
{
    let fields = match crate::schema::adapt(shape) {
        Ok(fs) => fs,
        Err(e) => {
            return Err(e);
        },
    };
    let p = crate::pattern::count_parameters(tokens);
    if p > fields.len() {
        return Err(CompileError::TooManyParameters);
    }
    let toks = clone_tokens(tokens);
    Ok(Encoder { tokens: toks, fields })
}

/// Copies a token sequence so a compiled codec owns its tokens.
pub(crate) fn clone_tokens(tokens: &Vec<Tok>) -> (r: Vec<Tok>)
    ensures
        toks_view(r@) == toks_view(tokens@),
{
    let mut r: Vec<Tok> = Vec::new();
    let mut i: usize = 0;
    while i < tokens.len()
        invariant
            i <= tokens@.len(),
            toks_view(r@) == toks_view(tokens@).take(i as int),
        decreases tokens@.len() - i,
    {
        let t = match &tokens[i] {
            Tok::Required(text) => Tok::Required(crate::schema::clone_bytes(text)),
            Tok::Optional(text) => Tok::Optional(crate::schema::clone_bytes(text)),
            Tok::Space => Tok::Space,
            Tok::Parameter => Tok::Parameter,
        };
        assert(t@ == tokens@[i as int]@);
        proof {
            crate::pattern::lemma_toks_view_push(r@, t);
        }
        r.push(t);
        assert(toks_view(r@) =~= toks_view(tokens@).take(i + 1 as int));
        i = i + 1;
    }
    assert(toks_view(r@) =~= toks_view(tokens@));
    r
}

} // verus!
