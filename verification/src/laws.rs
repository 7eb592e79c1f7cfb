//! The laws tying the decoder to the encoder.
//!
//! The encoder renders one canonical message per instance; the decoder
//! tolerates a family of messages around it: optional literal spans may
//! be omitted and each separator may carry any number of spaces.  The
//! lemmas here prove that the decoder accepts the whole family and binds
//! exactly the encoded values — and rejects the message as soon as
//! anything trails it.
//!
//! Because the decoder is greedy and field codecs consume variable-width
//! text, the proofs carry a per-token side condition, `decode_safe`:
//! what follows an omitted optional span must not begin with the span
//! itself, what follows a separator must not begin with another space,
//! and what follows a decimal field must not begin with another digit.
//! Every canonically encoded message of an ordinary command pattern
//! satisfies it; a pattern such as `<count>5`, whose literal continues a
//! decimal field with a digit, is exactly what it excludes.

use crate::decode::{defaults_from, spec_decode, spec_decode_message};
use crate::display::spec_encode;
use crate::pattern::{
    count_params, is_space_byte, lemma_count_params_nonneg, lemma_space_run_is, space_run_at,
    seq_add_assoc_all, TokV,
};
use crate::value::{
    instance_matches, is_digit, lemma_parse_format, spec_format, spec_parse, value_kind, Value,
    ValueKind,
};
use vstd::prelude::*;

verus! {

/// `k` spaces.
pub open spec fn spaces(k: int) -> Seq<u8> {
    Seq::new(if k < 0 {
        0
    } else {
        k as nat
    }, |i: int| 32u8)
}

/// Every message the decoder is meant to accept for an instance: the
/// canonical encoding relaxed at the input-tolerant points.  `keep[j]`
/// says whether the optional literal at token `j` is present, and
/// `gaps[j]` how many spaces stand for the separator at token `j`.
pub open spec fn encode_relaxed(
    ts: Seq<TokV>,
    vals: Seq<Value>,
    fi: int,
    keep: Seq<bool>,
    gaps: Seq<int>,
) -> Seq<u8>
    decreases ts.len(),
{
    if ts.len() == 0 {
        Seq::empty()
    } else {
        let head = match ts[0] {
            TokV::Required(t) => t,
            TokV::Optional(t) => if keep[0] {
                t
            } else {
                Seq::empty()
            },
            TokV::Space => spaces(gaps[0]),
            TokV::Parameter => if 0 <= fi < vals.len() {
                spec_format(vals[fi])
            } else {
                Seq::empty()
            },
        };
        let next = if ts[0] is Parameter {
            fi + 1
        } else {
            fi
        };
        head + encode_relaxed(ts.skip(1), vals, next, keep.skip(1), gaps.skip(1))
    }
}

/// The greedy decoder consumes exactly what each token emitted as long
/// as no token's emission can bleed into what follows it.  `tail` below
/// is everything emitted after the token at hand, followed by `rest`.
pub open spec fn decode_safe(
    ts: Seq<TokV>,
    vals: Seq<Value>,
    fi: int,
    keep: Seq<bool>,
    gaps: Seq<int>,
    rest: Seq<u8>,
) -> bool
    decreases ts.len(),
{
    if ts.len() == 0 {
        true
    } else {
        let next = if ts[0] is Parameter {
            fi + 1
        } else {
            fi
        };
        let tail = encode_relaxed(ts.skip(1), vals, next, keep.skip(1), gaps.skip(1)) + rest;
        (match ts[0] {
            TokV::Required(t) => true,
            TokV::Optional(t) => keep[0] || !t.is_prefix_of(tail),
            TokV::Space => gaps[0] >= 1 && (tail.len() == 0 || !is_space_byte(tail[0])),
            TokV::Parameter => 0 <= fi < vals.len() && (vals[fi] is Unsigned ==> tail.len() == 0
                || !is_digit(tail[0])),
        }) && decode_safe(ts.skip(1), vals, next, keep.skip(1), gaps.skip(1), rest)
    }
}

/// The heart of every law here: matching the tokens against their own
/// relaxed emission consumes it exactly, binds the fields `[fi, fi + P)`
/// in order, and leaves `rest` untouched.
proof fn lemma_decode_encode_relaxed(
    ts: Seq<TokV>,
    ks: Seq<ValueKind>,
    vals: Seq<Value>,
    fi: int,
    keep: Seq<bool>,
    gaps: Seq<int>,
    rest: Seq<u8>,
)
    requires
        instance_matches(ks, vals),
        0 <= fi,
        fi + count_params(ts) <= vals.len(),
        decode_safe(ts, vals, fi, keep, gaps, rest),
    ensures
        spec_decode(ts, ks, fi, encode_relaxed(ts, vals, fi, keep, gaps) + rest) == Some(
            (vals.subrange(fi, fi + count_params(ts)), rest),
        ),
    decreases ts.len(),
{
    seq_add_assoc_all::<u8>();
    if ts.len() == 0 {
        assert(encode_relaxed(ts, vals, fi, keep, gaps) + rest =~= rest);
        assert(vals.subrange(fi, fi) =~= Seq::<Value>::empty());
    } else {
        let next = if ts[0] is Parameter {
            fi + 1
        } else {
            fi
        };
        let tail0 = encode_relaxed(ts.skip(1), vals, next, keep.skip(1), gaps.skip(1));
        let tailr = tail0 + rest;
        let input = encode_relaxed(ts, vals, fi, keep, gaps) + rest;
        lemma_count_params_nonneg(ts.skip(1));
        lemma_decode_encode_relaxed(ts.skip(1), ks, vals, next, keep.skip(1), gaps.skip(1), rest);
        let sub1 = vals.subrange(next, next + count_params(ts.skip(1)));
        match ts[0] {
            TokV::Required(t) => {
                assert(input =~= t + tailr);
                assert(input.subrange(0, t.len() as int) =~= t);
                assert(t.is_prefix_of(input));
                assert(input.skip(t.len() as int) =~= tailr);
            },
            TokV::Optional(t) => {
                if keep[0] {
                    assert(input =~= t + tailr);
                    assert(input.subrange(0, t.len() as int) =~= t);
                    assert(t.is_prefix_of(input));
                    assert(input.skip(t.len() as int) =~= tailr);
                } else {
                    assert(input =~= tailr);
                    assert(!t.is_prefix_of(tailr));
                }
            },
            TokV::Space => {
                let g = gaps[0];
                assert(input =~= spaces(g) + tailr);
                assert(forall|j: int| 0 <= j < g ==> is_space_byte(#[trigger] input[j]));
                assert(g < input.len() ==> input[g] == tailr[0]);
                lemma_space_run_is(input, 0, g);
                assert(space_run_at(input, 0) == g);
                assert(input.skip(g) =~= tailr);
            },
            TokV::Parameter => {
                assert(0 <= fi < vals.len());
                assert(value_kind(vals[fi]) == ks[fi]);
                assert(input =~= spec_format(vals[fi]) + tailr);
                lemma_parse_format(vals[fi], tailr);
                assert(spec_parse(ks[fi], input) == Some((vals[fi], tailr)));
                assert(seq![vals[fi]] + sub1 =~= vals.subrange(fi, fi + count_params(ts)));
            },
        }
    }
}

/// The family version on whole messages: any relaxed rendering of an
/// instance decodes back to the bound fields followed by the defaults of
/// the unbound ones.
pub proof fn lemma_decode_encode_message(
    ts: Seq<TokV>,
    ks: Seq<ValueKind>,
    vals: Seq<Value>,
    keep: Seq<bool>,
    gaps: Seq<int>,
)
    requires
        instance_matches(ks, vals),
        count_params(ts) <= vals.len(),
        decode_safe(ts, vals, 0, keep, gaps, Seq::empty()),
    ensures
        spec_decode_message(ts, ks, encode_relaxed(ts, vals, 0, keep, gaps)) == Some(
            vals.subrange(0, count_params(ts)) + defaults_from(ks, count_params(ts)),
        ),
{
    lemma_count_params_nonneg(ts);
    lemma_decode_encode_relaxed(ts, ks, vals, 0, keep, gaps, Seq::empty());
    assert(encode_relaxed(ts, vals, 0, keep, gaps) + Seq::<u8>::empty() =~= encode_relaxed(
        ts,
        vals,
        0,
        keep,
        gaps,
    ));
    assert(vals.subrange(0, count_params(ts)).len() == count_params(ts));
}

/// The canonical encoding is the relaxed one with every optional span
/// kept and every separator a single space.
pub proof fn lemma_encode_canonical(ts: Seq<TokV>, vals: Seq<Value>, fi: int, keep: Seq<bool>, gaps: Seq<int>)
    requires
        keep.len() >= ts.len(),
        gaps.len() >= ts.len(),
        forall|j: int| 0 <= j < ts.len() ==> keep[j],
        forall|j: int| 0 <= j < ts.len() ==> gaps[j] == 1,
    ensures
        encode_relaxed(ts, vals, fi, keep, gaps) == spec_encode(ts, vals, fi),
    decreases ts.len(),
{
    if ts.len() > 0 {
        lemma_encode_canonical(ts.skip(1), vals, if ts[0] is Parameter {
            fi + 1
        } else {
            fi
        }, keep.skip(1), gaps.skip(1));
        if ts[0] is Space {
            assert(spaces(gaps[0]) =~= seq![32u8]);
        }
    }
}

/// Round-trip: decoding the canonical encoding of any well-typed
/// instance succeeds and returns the instance's bound fields, with every
/// unbound trailing field reset to its default.  The one exception
/// `decode_safe` carves out is a pattern whose text lets a field's own
/// emission run into what follows it.
pub proof fn lemma_round_trip(ts: Seq<TokV>, ks: Seq<ValueKind>, vals: Seq<Value>)
    requires
        instance_matches(ks, vals),
        count_params(ts) <= vals.len(),
        decode_safe(
            ts,
            vals,
            0,
            Seq::new(ts.len(), |j: int| true),
            Seq::new(ts.len(), |j: int| 1int),
            Seq::empty(),
        ),
    ensures
        spec_decode_message(ts, ks, spec_encode(ts, vals, 0)) == Some(
            vals.subrange(0, count_params(ts)) + defaults_from(ks, count_params(ts)),
        ),
{
    let keep = Seq::new(ts.len(), |j: int| true);
    let gaps = Seq::new(ts.len(), |j: int| 1int);
    lemma_encode_canonical(ts, vals, 0, keep, gaps);
    lemma_decode_encode_message(ts, ks, vals, keep, gaps);
}

/// Round-trip, exactly: when the trailing unbound fields already hold
/// their defaults, decoding the encoding gives the instance itself back.
pub proof fn lemma_round_trip_exact(ts: Seq<TokV>, ks: Seq<ValueKind>, vals: Seq<Value>)
    requires
        instance_matches(ks, vals),
        count_params(ts) <= vals.len(),
        vals.skip(count_params(ts)) == defaults_from(ks, count_params(ts)),
        decode_safe(
            ts,
            vals,
            0,
            Seq::new(ts.len(), |j: int| true),
            Seq::new(ts.len(), |j: int| 1int),
            Seq::empty(),
        ),
    ensures
        spec_decode_message(ts, ks, spec_encode(ts, vals, 0)) == Some(vals),
{
    lemma_count_params_nonneg(ts);
    lemma_round_trip(ts, ks, vals);
    assert(vals.subrange(0, count_params(ts)) + defaults_from(ks, count_params(ts)) =~= vals);
}

/// Optional tolerance: a message with any choice of optional literal
/// spans wholly omitted — and all the others wholly present — still
/// decodes, to the same instance, as long as no omitted span's text
/// reappears at the point of omission.
pub proof fn lemma_optional_tolerance(
    ts: Seq<TokV>,
    ks: Seq<ValueKind>,
    vals: Seq<Value>,
    keep: Seq<bool>,
)
    requires
        instance_matches(ks, vals),
        count_params(ts) <= vals.len(),
        decode_safe(ts, vals, 0, keep, Seq::new(ts.len(), |j: int| 1int), Seq::empty()),
    ensures
        spec_decode_message(
            ts,
            ks,
            encode_relaxed(ts, vals, 0, keep, Seq::new(ts.len(), |j: int| 1int)),
        ) == Some(vals.subrange(0, count_params(ts)) + defaults_from(ks, count_params(ts))),
{
    lemma_decode_encode_message(ts, ks, vals, keep, Seq::new(ts.len(), |j: int| 1int));
}

/// Space flexibility on input: a message carrying any positive number of
/// spaces per separator decodes like the canonical one.  (On output the
/// encoder's own contract already pins each separator to exactly one
/// space.)
pub proof fn lemma_space_flexibility(
    ts: Seq<TokV>,
    ks: Seq<ValueKind>,
    vals: Seq<Value>,
    gaps: Seq<int>,
)
    requires
        instance_matches(ks, vals),
        count_params(ts) <= vals.len(),
        decode_safe(ts, vals, 0, Seq::new(ts.len(), |j: int| true), gaps, Seq::empty()),
    ensures
        spec_decode_message(
            ts,
            ks,
            encode_relaxed(ts, vals, 0, Seq::new(ts.len(), |j: int| true), gaps),
        ) == Some(vals.subrange(0, count_params(ts)) + defaults_from(ks, count_params(ts))),
{
    lemma_decode_encode_message(ts, ks, vals, Seq::new(ts.len(), |j: int| true), gaps);
}

/// Trailing residue rejection: any nonempty residue behind an accepted
/// rendering makes the whole message decode to nothing — provided the
/// residue's first byte cannot be absorbed by the last consuming token,
/// which is what `decode_safe` against the residue says.
pub proof fn lemma_trailing_residue(
    ts: Seq<TokV>,
    ks: Seq<ValueKind>,
    vals: Seq<Value>,
    keep: Seq<bool>,
    gaps: Seq<int>,
    extra: Seq<u8>,
)
    requires
        instance_matches(ks, vals),
        count_params(ts) <= vals.len(),
        extra.len() > 0,
        decode_safe(ts, vals, 0, keep, gaps, extra),
    ensures
        spec_decode_message(ts, ks, encode_relaxed(ts, vals, 0, keep, gaps) + extra) is None,
{
    lemma_count_params_nonneg(ts);
    lemma_decode_encode_relaxed(ts, ks, vals, 0, keep, gaps, extra);
}

/// Prefix binding on the encoding side: the encoder reads only the
/// fields `[0, P)` that the placeholders bind; changing any field beyond
/// them changes nothing in the output.
pub proof fn lemma_encode_ignores_unbound(
    ts: Seq<TokV>,
    vals1: Seq<Value>,
    vals2: Seq<Value>,
    fi: int,
)
    requires
        0 <= fi,
        fi + count_params(ts) <= vals1.len(),
        fi + count_params(ts) <= vals2.len(),
        vals1.len() == vals2.len(),
        forall|j: int| fi <= j < fi + count_params(ts) ==> vals1[j] == vals2[j],
    ensures
        spec_encode(ts, vals1, fi) == spec_encode(ts, vals2, fi),
    decreases ts.len(),
{
    if ts.len() > 0 {
        let next = if ts[0] is Parameter {
            fi + 1
        } else {
            fi
        };
        lemma_count_params_nonneg(ts.skip(1));
        lemma_encode_ignores_unbound(ts.skip(1), vals1, vals2, next);
    }
}

/// When does a whole well-formed pattern satisfy `decode_safe`?  The
/// only cross-token hazard left by the grammar itself is a decimal
/// field whose following literal begins with a digit: this predicate
/// rules exactly that out.  (`fi + count_params(ts.take(j))` is the
/// field the placeholder at token `j` binds.)
pub open spec fn digit_separated(ts: Seq<TokV>, vals: Seq<Value>, fi: int) -> bool {
    forall|j: int|
        0 <= j < ts.len() - 1 && (#[trigger] ts[j]) is Parameter && vals[fi + count_params(
            ts.take(j),
        )] is Unsigned && (ts[j + 1] is Required || ts[j + 1] is Optional) ==> !is_digit(
            crate::pattern::literal_text(ts[j + 1])[0],
        )
}

/// The canonical emission of a nonempty well-formed token sequence is
/// nonempty, begins with a space only under a `Space` token, and begins
/// with a digit only under a decimal placeholder or a digit-leading
/// literal.
proof fn lemma_emit_head(ts: Seq<TokV>, vals: Seq<Value>, fi: int, keep: Seq<bool>, gaps: Seq<int>)
    requires
        ts.len() > 0,
        keep.len() == ts.len(),
        gaps.len() == ts.len(),
        forall|j: int| 0 <= j < ts.len() ==> #[trigger] keep[j],
        forall|j: int| 0 <= j < ts.len() ==> #[trigger] gaps[j] == 1,
        crate::pattern::wf_tokens(ts),
        0 <= fi,
        fi + count_params(ts) <= vals.len(),
    ensures
        encode_relaxed(ts, vals, fi, keep, gaps).len() > 0,
        is_space_byte(encode_relaxed(ts, vals, fi, keep, gaps)[0]) ==> ts[0] is Space,
        is_digit(encode_relaxed(ts, vals, fi, keep, gaps)[0]) ==> (ts[0] is Parameter
            && vals[fi] is Unsigned) || ((ts[0] is Required || ts[0] is Optional) && is_digit(
            crate::pattern::literal_text(ts[0])[0],
        )),
{
    let e = encode_relaxed(ts, vals, fi, keep, gaps);
    lemma_count_params_nonneg(ts.skip(1));
    match ts[0] {
        TokV::Required(t) => {
            assert(crate::pattern::literal_text(ts[0]) == t);
            assert(t.len() >= 1);
            assert(e[0] == t[0]);
        },
        TokV::Optional(t) => {
            assert(crate::pattern::literal_text(ts[0]) == t);
            assert(t.len() >= 1);
            assert(e[0] == t[0]);
        },
        TokV::Space => {
            assert(spaces(gaps[0]).len() == 1);
            assert(e[0] == 32);
        },
        TokV::Parameter => {
            assert(count_params(ts) == 1 + count_params(ts.skip(1)));
            assert(fi < vals.len());
            match vals[fi] {
                Value::Unsigned(n) => {
                    crate::value::lemma_dec_digits(n as nat);
                    assert(spec_format(vals[fi]).len() >= 1);
                    assert(e[0] == spec_format(vals[fi])[0]);
                    assert(is_digit(e[0]));
                },
                Value::Switch(b) => {
                    assert(spec_format(vals[fi]).len() >= 1);
                    assert(e[0] == 79);
                },
            }
        },
    }
}

/// A well-formed, digit-separated pattern is safe to decode greedily
/// around its canonical emission: the grammar already forbids adjacent
/// placeholders and merged space runs, literal texts never hold a
/// space, and `digit_separated` covers the one remaining hazard.
#[verifier::rlimit(60)]
pub proof fn lemma_wf_canonical_safe(
    ts: Seq<TokV>,
    vals: Seq<Value>,
    fi: int,
    keep: Seq<bool>,
    gaps: Seq<int>,
)
    requires
        crate::pattern::wf_tokens(ts),
        digit_separated(ts, vals, fi),
        keep.len() == ts.len(),
        gaps.len() == ts.len(),
        forall|j: int| 0 <= j < ts.len() ==> #[trigger] keep[j],
        forall|j: int| 0 <= j < ts.len() ==> #[trigger] gaps[j] == 1,
        0 <= fi,
        fi + count_params(ts) <= vals.len(),
    ensures
        decode_safe(ts, vals, fi, keep, gaps, Seq::empty()),
    decreases ts.len(),
{
    if ts.len() == 0 {
        return ;
    }
    let next = if ts[0] is Parameter {
        fi + 1
    } else {
        fi
    };
    let ts1 = ts.skip(1);
    let keep1 = keep.skip(1);
    let gaps1 = gaps.skip(1);
    lemma_count_params_nonneg(ts1);
    assert(count_params(ts) == (if ts[0] is Parameter {
        1int
    } else {
        0int
    }) + count_params(ts1));
    crate::pattern::lemma_wf_tokens_skip(ts);
    assert(forall|j: int| 0 <= j < ts1.len() ==> #[trigger] ts1[j] == ts[j + 1]);
    assert forall|j: int|
        0 <= j < ts1.len() - 1 && (#[trigger] ts1[j]) is Parameter && vals[next + count_params(
            ts1.take(j),
        )] is Unsigned && (ts1[j + 1] is Required || ts1[j + 1] is Optional) implies !is_digit(
        crate::pattern::literal_text(ts1[j + 1])[0],
    ) by {
        assert(ts.take(j + 1) =~= seq![ts[0]] + ts1.take(j));
        crate::pattern::lemma_count_params_concat(seq![ts[0]], ts1.take(j));
        assert(seq![ts[0]].skip(1) =~= Seq::<TokV>::empty());
        assert(count_params(Seq::<TokV>::empty()) == 0);
        assert(count_params(seq![ts[0]]) == next - fi);
        assert(fi + count_params(ts.take(j + 1)) == next + count_params(ts1.take(j)));
        assert(ts[j + 1] is Parameter);
        assert(ts[j + 2] == ts1[j + 1]);
    }
    assert(digit_separated(ts1, vals, next));
    lemma_wf_canonical_safe(ts1, vals, next, keep1, gaps1);
    let tail0 = encode_relaxed(ts1, vals, next, keep1, gaps1);
    let tail = tail0 + Seq::<u8>::empty();
    assert(tail =~= tail0);
    match ts[0] {
        TokV::Required(t) => {
        },
        TokV::Optional(t) => {
            assert(keep[0]);
        },
        TokV::Space => {
            assert(gaps[0] == 1);
            if ts.len() > 1 {
                lemma_emit_head(ts1, vals, next, keep1, gaps1);
                assert(!(ts1[0] is Space));
                assert(tail.len() == 0 || !is_space_byte(tail[0]));
            } else {
                assert(ts1.len() == 0);
                assert(tail0 =~= Seq::<u8>::empty());
            }
        },
        TokV::Parameter => {
            assert(fi < vals.len());
            if vals[fi] is Unsigned && ts.len() > 1 {
                lemma_emit_head(ts1, vals, next, keep1, gaps1);
                if tail.len() > 0 && is_digit(tail[0]) {
                    assert((ts1[0] is Parameter && vals[next] is Unsigned) || ((ts1[0] is Required
                        || ts1[0] is Optional) && is_digit(
                        crate::pattern::literal_text(ts1[0])[0],
                    )));
                    assert(!(ts[1] is Parameter));
                    assert(ts.take(0) =~= Seq::<TokV>::empty());
                    assert(count_params(Seq::<TokV>::empty()) == 0);
                    assert(vals[fi + count_params(ts.take(0))] is Unsigned);
                    assert(!is_digit(crate::pattern::literal_text(ts[1])[0]));
                    assert(false);
                }
            } else if vals[fi] is Unsigned {
                assert(ts1.len() == 0);
                assert(tail0 =~= Seq::<u8>::empty());
            }
        },
    }
}

/// Round-trip for every pattern the grammar accepts: tokenizer
/// well-formedness and digit separation are all it takes.
pub proof fn lemma_round_trip_for_pattern(ts: Seq<TokV>, ks: Seq<ValueKind>, vals: Seq<Value>)
    requires
        crate::pattern::wf_tokens(ts),
        digit_separated(ts, vals, 0),
        instance_matches(ks, vals),
        count_params(ts) <= vals.len(),
    ensures
        spec_decode_message(ts, ks, spec_encode(ts, vals, 0)) == Some(
            vals.subrange(0, count_params(ts)) + defaults_from(ks, count_params(ts)),
        ),
{
    lemma_count_params_nonneg(ts);
    lemma_wf_canonical_safe(
        ts,
        vals,
        0,
        Seq::new(ts.len(), |j: int| true),
        Seq::new(ts.len(), |j: int| 1int),
    );
    lemma_round_trip(ts, ks, vals);
}

/// A partially present optional span is rejected, shown here for a
/// command of one optional span followed by one required literal: a
/// message holding only a proper prefix of the span, then the literal,
/// never matches — whether the decoder takes the span or skips it.
pub proof fn lemma_partial_optional_rejected(t: Seq<u8>, u: Seq<u8>, ks: Seq<ValueKind>, k: int)
    requires
        0 < k < t.len(),
        u.len() > 0,
    ensures
        spec_decode_message(
            seq![TokV::Optional(t), TokV::Required(u)],
            ks,
            t.take(k) + u,
        ) is None,
{
    let ts = seq![TokV::Optional(t), TokV::Required(u)];
    let m = t.take(k) + u;
    let ts1 = seq![TokV::Required(u)];
    assert(ts.skip(1) =~= ts1);
    assert(ts1.skip(1) =~= Seq::<TokV>::empty());
    assert(m.len() == k + u.len());
    if t.is_prefix_of(m) {
        let m1 = m.skip(t.len() as int);
        assert(m1.len() < u.len());
        assert(!u.is_prefix_of(m1));
        assert(spec_decode(ts1, ks, 0, m1) is None);
        assert(spec_decode(ts, ks, 0, m) is None);
    } else {
        assert(spec_decode(ts, ks, 0, m) == spec_decode(ts1, ks, 0, m));
        if u.is_prefix_of(m) {
            let r = m.skip(u.len() as int);
            assert(r.len() == k + u.len() - u.len());
            assert(spec_decode(Seq::<TokV>::empty(), ks, 0, r) == Some((
                Seq::<Value>::empty(),
                r,
            )));
            assert(spec_decode(ts1, ks, 0, m) == Some((Seq::<Value>::empty(), r)));
            assert(r.len() != 0);
        } else {
            assert(spec_decode(ts1, ks, 0, m) is None);
        }
    }
}

/// Literal exactness at the head of a pattern: a message that deviates
/// anywhere within a leading required literal — or ends before it does —
/// matches nothing.
pub proof fn lemma_leading_literal_exactness(
    ts: Seq<TokV>,
    ks: Seq<ValueKind>,
    t: Seq<u8>,
    m: Seq<u8>,
    j: int,
)
    requires
        ts.len() > 0,
        ts[0] == TokV::Required(t),
        0 <= j < t.len(),
        m.len() <= j || m[j] != t[j],
    ensures
        spec_decode_message(ts, ks, m) is None,
{
    if t.is_prefix_of(m) {
        assert(m.subrange(0, t.len() as int)[j] == m[j]);
        assert(false);
    }
}

} // verus!
