//! The decoder compiler: from pattern tokens and a field schema to a
//! sequential-match procedure.
//!
//! Decoding keeps a cursor into the message and a pointer into the
//! fields, starting at field `0`.  A required literal must appear
//! verbatim at the cursor; an optional literal is consumed when present
//! and skipped without harm when absent; a `Space` token consumes one or
//! more spaces and fails on zero; a placeholder invokes the bound
//! field's parse codec, which decides how much input it consumes.  After
//! the last token the message must be exhausted.  Fields beyond the last
//! placeholder receive their kind's default value.  A failed match is
//! the normal "this message is not this command" outcome: the result is
//! simply none, never an error object.

use crate::pattern::{
    count_params, lemma_count_params_concat, lemma_count_params_nonneg, lemma_count_params_split,
    scan_spaces, space_run_at, toks_view, Tok, TokV,
};
use crate::schema::{fields_view, kinds_of, CompileError, FieldDescriptor, FieldV, Shape};
use crate::value::{default_value, parse_value, spec_parse, Value, ValueKind};
use vstd::prelude::*;

verus! {

/// The sequential match of tokens `ts` against `input`, binding fields
/// of kinds `ks` from index `fi` on: the values the placeholders parsed
/// and the unconsumed remainder, or no match.
pub open spec fn spec_decode(ts: Seq<TokV>, ks: Seq<ValueKind>, fi: int, input: Seq<u8>) -> Option<
    (Seq<Value>, Seq<u8>),
>
    decreases ts.len(),
{
    if ts.len() == 0 {
        Some((Seq::empty(), input))
    } else {
        match ts[0] {
            TokV::Required(t) => if t.is_prefix_of(input) {
                spec_decode(ts.skip(1), ks, fi, input.skip(t.len() as int))
            } else {
                None
            },
            TokV::Optional(t) => if t.is_prefix_of(input) {
                spec_decode(ts.skip(1), ks, fi, input.skip(t.len() as int))
            } else {
                spec_decode(ts.skip(1), ks, fi, input)
            },
            TokV::Space => {
                let k = space_run_at(input, 0);
                if k == 0 {
                    None
                } else {
                    spec_decode(ts.skip(1), ks, fi, input.skip(k))
                }
            },
            TokV::Parameter => {
                if 0 <= fi < ks.len() {
                    match spec_parse(ks[fi], input) {
                        Some(p) => match spec_decode(ts.skip(1), ks, fi + 1, p.1) {
                            Some(q) => Some((seq![p.0] + q.0, q.1)),
                            None => None,
                        },
                        None => None,
                    }
                } else {
                    None
                }
            },
        }
    }
}

/// The default values of the fields from index `p` on.
pub open spec fn defaults_from(ks: Seq<ValueKind>, p: int) -> Seq<Value> {
    ks.skip(p).map_values(|k: ValueKind| default_value(k))
}

/// What decoding a whole message means: the full match must consume the
/// entire input, the placeholder-bound values fill fields `[0, P)`, and
/// every field beyond the last placeholder takes its default.
pub open spec fn spec_decode_message(ts: Seq<TokV>, ks: Seq<ValueKind>, input: Seq<u8>) -> Option<
    Seq<Value>,
> {
    match spec_decode(ts, ks, 0, input) {
        Some(p) => if p.1.len() == 0 {
            Some(p.0 + defaults_from(ks, p.0.len() as int))
        } else {
            None
        },
        None => None,
    }
}

/// Whatever the match binds is well typed: one value per placeholder,
/// each of its bound field's kind.
pub proof fn lemma_decode_well_typed(ts: Seq<TokV>, ks: Seq<ValueKind>, fi: int, input: Seq<u8>)
    requires
        0 <= fi,
    ensures
        match spec_decode(ts, ks, fi, input) {
            Some(p) => {
                &&& p.0.len() == count_params(ts)
                &&& forall|l: int|
                    0 <= l < p.0.len() ==> crate::value::value_kind(#[trigger] p.0[l]) == ks[fi + l]
            },
            None => true,
        },
    decreases ts.len(),
{
    if ts.len() == 0 {
    } else {
        match ts[0] {
            TokV::Required(t) => {
                if t.is_prefix_of(input) {
                    lemma_decode_well_typed(ts.skip(1), ks, fi, input.skip(t.len() as int));
                }
            },
            TokV::Optional(t) => {
                if t.is_prefix_of(input) {
                    lemma_decode_well_typed(ts.skip(1), ks, fi, input.skip(t.len() as int));
                } else {
                    lemma_decode_well_typed(ts.skip(1), ks, fi, input);
                }
            },
            TokV::Space => {
                let k = space_run_at(input, 0);
                if k != 0 {
                    lemma_decode_well_typed(ts.skip(1), ks, fi, input.skip(k));
                }
            },
            TokV::Parameter => {
                if 0 <= fi < ks.len() {
                    match spec_parse(ks[fi], input) {
                        Some(p) => {
                            lemma_decode_well_typed(ts.skip(1), ks, fi + 1, p.1);
                            crate::pattern::lemma_count_params_nonneg(ts.skip(1));
                        },
                        None => {
                        },
                    }
                }
            },
        }
    }
}

/// Prefixes already-bound values onto a partial match.
spec fn lift(vs: Seq<Value>, o: Option<(Seq<Value>, Seq<u8>)>) -> Option<
    (Seq<Value>, Seq<u8>),
> {
    match o {
        Some(p) => Some((vs + p.0, p.1)),
        None => None,
    }
}

/// A compiled decoder: the immutable token sequence and descriptor list,
/// bound once at compile time with placeholders a contiguous prefix of
/// the fields.
pub struct Decoder {
    tokens: Vec<Tok>,
    fields: Vec<FieldDescriptor>,
}

impl Decoder {
    /// The token sequence this decoder matches.
    pub closed spec fn toks(&self) -> Seq<TokV> {
        toks_view(self.tokens@)
    }

    /// The descriptor list the placeholders are bound against.
    pub closed spec fn fields_v(&self) -> Seq<FieldV> {
        fields_view(self.fields@)
    }

    /// The value kinds of the fields, in order.
    pub open spec fn kinds(&self) -> Seq<ValueKind> {
        kinds_of(self.fields_v())
    }

    /// Compilation's invariant: the placeholders bind a contiguous prefix
    /// of the fields.
    pub open spec fn wf(&self) -> bool {
        count_params(self.toks()) <= self.fields_v().len()
    }

    /// Matches a message against the pattern.  Some instance exactly
    /// where the spec-level match consumes the whole message; none on
    /// any mismatch: a wrong or truncated literal, a missing separator,
    /// a rejected field value, or trailing bytes.
    pub fn decode(&self, message: &[u8]) -> (r: Option<Vec<Value>>)
        requires
            self.wf(),
        ensures
            match r {
                Some(vs) => {
                    &&& spec_decode_message(self.toks(), self.kinds(), message@) == Some(vs@)
                    &&& crate::value::instance_matches(self.kinds(), vs@)
                },
                None => spec_decode_message(self.toks(), self.kinds(), message@) is None,
            },
    {
        let ghost full = self.toks();
        let ghost ks = self.kinds();
        let n = message.len();
        let mut vals: Vec<Value> = Vec::new();
        let mut c: usize = 0;
        let mut fi: usize = 0;
        let mut i: usize = 0;
        proof {
            assert(full.skip(0) =~= full);
            assert(message@.skip(0) =~= message@);
            assert(Seq::<Value>::empty() + Seq::<Value>::empty() =~= Seq::<Value>::empty());
            lemma_count_params_nonneg(full);
        }
        while i < self.tokens.len()
            invariant
                i <= self.tokens@.len(),
                c <= n == message@.len(),
                full == self.toks(),
                ks == self.kinds(),
                self.wf(),
                fi == vals@.len(),
                fi == count_params(full.take(i as int)),
                fi <= i,
                spec_decode(full, ks, 0, message@) == lift(
                    vals@,
                    spec_decode(full.skip(i as int), ks, fi as int, message@.skip(c as int)),
                ),
            decreases self.tokens@.len() - i,
        {
            let ghost rest = full.skip(i as int);
            let ghost input = message@.skip(c as int);
            proof {
                assert(rest.len() > 0);
                assert(rest[0] == full[i as int]);
                assert(rest.skip(1) =~= full.skip(i + 1 as int));
                assert(full.take(i + 1 as int) =~= full.take(i as int) + seq![full[i as int]]);
                lemma_count_params_concat(full.take(i as int), seq![full[i as int]]);
                assert(seq![full[i as int]].skip(1) =~= Seq::<TokV>::empty());
                assert(count_params(Seq::<TokV>::empty()) == 0);
                assert(count_params(seq![full[i as int]]) == (if full[i as int] is Parameter {
                    1int
                } else {
                    0int
                }));
                lemma_count_params_nonneg(full.take(i + 1 as int));
            }
            let tok: &Tok = &self.tokens[i];
            proof {
                assert(full[i as int] == tok@);
            }
            match tok {
                Tok::Required(t) => {
                    match match_literal(message, c, t) {
                        Some(c2) => {
                            proof {
                                assert(input.skip(t@.len() as int) =~= message@.skip(c2 as int));
                            }
                            c = c2;
                        },
                        None => {
                            return None;
                        },
                    }
                },
                Tok::Optional(t) => {
                    match match_literal(message, c, t) {
                        Some(c2) => {
                            proof {
                                assert(input.skip(t@.len() as int) =~= message@.skip(c2 as int));
                            }
                            c = c2;
                        },
                        None => {
                        },
                    }
                },
                Tok::Space => {
                    let r = scan_spaces(message, c);
                    proof {
                        crate::pattern::lemma_space_run_shift(message@, c as int);
                        crate::pattern::lemma_space_run_bounds(message@, c as int);
                        assert(space_run_at(input, 0) == r - c);
                        assert(input.skip(r - c) =~= message@.skip(r as int));
                    }
                    if r == c {
                        return None;
                    }
                    c = r;
                },
                Tok::Parameter => {
                    proof {
                        assert(full[i as int] is Parameter);
                        lemma_count_params_split(full, i as int);
                        lemma_count_params_nonneg(full.skip(i + 1 as int));
                        assert(count_params(rest) == 1 + count_params(full.skip(i + 1 as int)));
                        assert(fi < ks.len());
                    }
                    let kind = self.fields[fi].kind;
                    proof {
                        assert(ks[fi as int] == kind);
                    }
                    match parse_value(kind, message, c) {
                        Some((v, j)) => {
                            proof {
                                crate::pattern::seq_add_assoc_all::<Value>();
                                assert(vals@.push(v) =~= vals@ + seq![v]);
                            }
                            vals.push(v);
                            fi = fi + 1;
                            c = j;
                        },
                        None => {
                            return None;
                        },
                    }
                },
            }
            i = i + 1;
        }
        proof {
            assert(full.skip(full.len() as int) =~= Seq::<TokV>::empty());
            assert(vals@ + Seq::<Value>::empty() =~= vals@);
        }
        if c < n {
            return None;
        }
        proof {
            assert(message@.skip(c as int).len() == 0);
        }
        // Unbound trailing fields take their kind's default value.
        let ghost parsed = vals@;
        let nf = self.fields.len();
        let mut j: usize = fi;
        while j < nf
            invariant
                fi <= j <= nf == self.fields@.len(),
                ks == self.kinds(),
                self.fields_v() == fields_view(self.fields@),
                vals@ == parsed + defaults_from(ks, fi as int).take(j - fi),
            decreases nf - j,
        {
            let d = crate::value::default_for(self.fields[j].kind);
            proof {
                assert(ks[j as int] == self.fields@[j as int]@.kind);
                assert(defaults_from(ks, fi as int)[j - fi] == d);
                assert((parsed + defaults_from(ks, fi as int).take(j - fi)).push(d) =~= parsed
                    + defaults_from(ks, fi as int).take(j + 1 - fi));
            }
            vals.push(d);
            j = j + 1;
        }
        proof {
            assert(defaults_from(ks, fi as int).take(nf - fi) =~= defaults_from(ks, fi as int));
            lemma_decode_well_typed(full, ks, 0, message@);
            assert(forall|l: int|
                0 <= l < nf - fi ==> defaults_from(ks, fi as int)[l] == default_value(
                    ks[fi + l],
                ));
            assert(crate::value::instance_matches(ks, vals@));
        }
        Some(vals)
    }
}

/// Tries a message against every variant's decoder in declaration
/// order and yields the first match: the variant's index and its decoded
/// field values.  None when no variant's command matches.
pub fn decode_variant(decoders: &Vec<Decoder>, message: &[u8]) -> (r: Option<(usize, Vec<Value>)>)
    requires
        forall|i: int| 0 <= i < decoders@.len() ==> (#[trigger] decoders@[i]).wf(),
    ensures
        match r {
            Some(p) => {
                &&& p.0 < decoders@.len()
                &&& spec_decode_message(
                    decoders@[p.0 as int].toks(),
                    decoders@[p.0 as int].kinds(),
                    message@,
                ) == Some(p.1@)
                &&& forall|j: int|
                    0 <= j < p.0 ==> spec_decode_message(
                        (#[trigger] decoders@[j]).toks(),
                        decoders@[j].kinds(),
                        message@,
                    ) is None
            },
            None => forall|j: int|
                0 <= j < decoders@.len() ==> spec_decode_message(
                    (#[trigger] decoders@[j]).toks(),
                    decoders@[j].kinds(),
                    message@,
                ) is None,
        },
{
    let mut i: usize = 0;
    while i < decoders.len()
        invariant
            i <= decoders@.len(),
            forall|j: int| 0 <= j < decoders@.len() ==> (#[trigger] decoders@[j]).wf(),
            forall|j: int|
                0 <= j < i ==> spec_decode_message(
                    (#[trigger] decoders@[j]).toks(),
                    decoders@[j].kinds(),
                    message@,
                ) is None,
        decreases decoders@.len() - i,
    {
        match decoders[i].decode(message) {
            Some(vs) => {
                return Some((i, vs));
            },
            None => {
            },
        }
        i = i + 1;
    }
    None
}

/// Whether the literal appears verbatim at the cursor; the cursor just
/// past it when it does.
fn match_literal(message: &[u8], c: usize, t: &Vec<u8>) -> (r: Option<usize>)
    requires
        c <= message@.len(),
    ensures
        match r {
            Some(c2) => c2 == c + t@.len() && c2 <= message@.len() && t@.is_prefix_of(
                message@.skip(c as int),
            ),
            None => !t@.is_prefix_of(message@.skip(c as int)),
        },
{
    let n = message.len();
    if n - c < t.len() {
        return None;
    }
    let mut k: usize = 0;
    while k < t.len()
        invariant
            k <= t@.len(),
            c + t@.len() <= n == message@.len(),
            forall|l: int| 0 <= l < k ==> t@[l] == message@[c + l],
        decreases t@.len() - k,
    {
        if message[c + k] != t[k] {
            proof {
                assert(message@.skip(c as int)[k as int] == message@[c + k]);
            }
            return None;
        }
        k = k + 1;
    }
    proof {
        assert(forall|l: int|
            0 <= l < t@.len() ==> #[trigger] message@.skip(c as int)[l] == message@[c + l]);
        assert(t@.is_prefix_of(message@.skip(c as int))) by {
            assert(t@ =~= message@.skip(c as int).take(t@.len() as int));
        }
    }
    Some(c + t.len())
}

/// Compiles the decoding side of a command: adapts the schema, binds the
/// placeholders to the leading fields, and yields the matcher.
pub fn command_decode(tokens: &Vec<Tok>, shape: &Shape) -> (r: Result<Decoder, CompileError>)
    ensures
        match r {
            Ok(dec) => {
                &&& crate::display::spec_compile(toks_view(tokens@), shape@) == Ok::<
                    Seq<FieldV>,
                    CompileError,
                >(dec.fields_v())
                &&& dec.toks() == toks_view(tokens@)
                &&& dec.wf()
            },
            Err(e) => crate::display::spec_compile(toks_view(tokens@), shape@) == Err::<
                Seq<FieldV>,
                CompileError,
            >(e),
        },
{
    let fields = match crate::schema::adapt(shape) {
        Ok(fs) => fs,
        Err(e) => {
            return Err(e);
        },
    };
    let p = crate::pattern::count_parameters(tokens);
    if p > fields.len() {
        return Err(CompileError::TooManyParameters);
    }
    let toks = crate::display::clone_tokens(tokens);
    Ok(Decoder { tokens: toks, fields })
}

} // verus!
