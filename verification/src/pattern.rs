//! The command-pattern grammar and its tokenizer.
//!
//! A pattern is a sequence of ASCII bytes.  It is read left to right,
//! greedily, into tokens:
//!
//! - a run of bytes outside `[`, `]`, `<`, `>` and the space is a
//!   `Required` literal;
//! - `[text]` is an `Optional` literal (the brackets are structural);
//! - a run of one or more spaces is a single `Space` separator;
//! - `<name>` is a `Parameter` placeholder; the name is documentation
//!   only and carries no literal text.
//!
//! Anything else — an unmatched bracket, an empty `[]` or `<>`, two
//! placeholders with no separator between them, an empty pattern — is a
//! grammar error reported with its byte position.

use vstd::prelude::*;

verus! {

/// One token of a parsed command pattern.
#[derive(PartialEq, Eq, Debug)]
pub enum Tok {
    /// Literal text that must appear verbatim in a message.
    Required(Vec<u8>),
    /// Literal text that may be omitted on input; always rendered on output.
    Optional(Vec<u8>),
    /// One-or-more spaces on input; a single space on output.
    Space,
    /// A placeholder bound, in order, to the next schema field.
    Parameter,
}

/// The mathematical view of a token: literal text as a byte sequence.
pub enum TokV {
    Required(Seq<u8>),
    Optional(Seq<u8>),
    Space,
    Parameter,
}

impl View for Tok {
    type V = TokV;

    open spec fn view(&self) -> TokV {
        match self {
            Tok::Required(t) => TokV::Required(t@),
            Tok::Optional(t) => TokV::Optional(t@),
            Tok::Space => TokV::Space,
            Tok::Parameter => TokV::Parameter,
        }
    }
}

/// The view of a token sequence.
pub open spec fn toks_view(ts: Seq<Tok>) -> Seq<TokV> {
    ts.map_values(|t: Tok| t@)
}

/// A grammar error in a pattern, with the byte position it was found at.
#[derive(Clone, Copy, PartialEq, Eq, Structural, Debug)]
pub enum PatternError {
    /// The pattern has no bytes at all.
    EmptyPattern,
    /// A stray `]` or `>` with no opening partner.
    UnexpectedByte(usize),
    /// A `[` that is not followed by literal text and a closing `]`.
    UnclosedGroup(usize),
    /// An optional span `[]` with no literal text inside.
    EmptyGroup(usize),
    /// A `<` that is not followed by a name and a closing `>`.
    UnclosedPlaceholder(usize),
    /// A placeholder `<>` with no name inside.
    EmptyPlaceholder(usize),
    /// Two placeholders with no separating token between them.
    AdjacentPlaceholders(usize),
}

pub open spec fn is_space_byte(b: u8) -> bool {
    b == 32
}

pub open spec fn is_literal_byte(b: u8) -> bool {
    b != 32 && b != 91 && b != 93 && b != 60 && b != 62
}

/// Length of the run of literal bytes starting at `i`.
pub open spec fn literal_run(p: Seq<u8>, i: int) -> int
    decreases p.len() - i when 0 <= i <= p.len()
{
    if i < p.len() && is_literal_byte(p[i]) {
        1 + literal_run(p, i + 1)
    } else {
        0
    }
}

/// Length of the run of space bytes starting at `i`.
pub open spec fn space_run_at(p: Seq<u8>, i: int) -> int
    decreases p.len() - i when 0 <= i <= p.len()
{
    if i < p.len() && is_space_byte(p[i]) {
        1 + space_run_at(p, i + 1)
    } else {
        0
    }
}

pub proof fn lemma_literal_run_bounds(p: Seq<u8>, i: int)
    requires
        0 <= i <= p.len(),
    ensures
        0 <= literal_run(p, i),
        i + literal_run(p, i) <= p.len(),
        forall|j: int| i <= j < i + literal_run(p, i) ==> is_literal_byte(p[j]),
        i + literal_run(p, i) < p.len() ==> !is_literal_byte(p[i + literal_run(p, i)]),
    decreases p.len() - i,
{
    if i < p.len() && is_literal_byte(p[i]) {
        lemma_literal_run_bounds(p, i + 1);
    }
}

pub proof fn lemma_space_run_bounds(p: Seq<u8>, i: int)
    requires
        0 <= i <= p.len(),
    ensures
        0 <= space_run_at(p, i),
        i + space_run_at(p, i) <= p.len(),
        forall|j: int| i <= j < i + space_run_at(p, i) ==> is_space_byte(p[j]),
        i + space_run_at(p, i) < p.len() ==> !is_space_byte(p[i + space_run_at(p, i)]),
    decreases p.len() - i,
{
    if i < p.len() && is_space_byte(p[i]) {
        lemma_space_run_bounds(p, i + 1);
    }
}

/// A run is pinned down by its two boundary facts: every byte before `r`
/// is in the class and the byte at `r`, if any, is not.
pub proof fn lemma_literal_run_is(p: Seq<u8>, i: int, r: int)
    requires
        0 <= i <= r <= p.len(),
        forall|j: int| i <= j < r ==> is_literal_byte(p[j]),
        r < p.len() ==> !is_literal_byte(p[r]),
    ensures
        literal_run(p, i) == r - i,
    decreases r - i,
{
    if i < r {
        lemma_literal_run_is(p, i + 1, r);
    }
}

pub proof fn lemma_space_run_is(p: Seq<u8>, i: int, r: int)
    requires
        0 <= i <= r <= p.len(),
        forall|j: int| i <= j < r ==> is_space_byte(p[j]),
        r < p.len() ==> !is_space_byte(p[r]),
    ensures
        space_run_at(p, i) == r - i,
    decreases r - i,
{
    if i < r {
        lemma_space_run_is(p, i + 1, r);
    }
}

#[via_fn]
proof fn spec_tokenize_at_decreases(p: Seq<u8>, i: int, after_param: bool) {
    if 0 <= i <= p.len() && i < p.len() {
        if is_space_byte(p[i]) {
            lemma_space_run_bounds(p, i);
        } else if is_literal_byte(p[i]) {
            lemma_literal_run_bounds(p, i);
        } else if p[i] == 91 || p[i] == 60 {
            lemma_literal_run_bounds(p, i + 1);
        }
    }
}

/// The grammar itself: tokens of the pattern suffix starting at `i`, or
/// the first grammar error.  `after_param` records whether the token just
/// before `i` was a placeholder, so that two adjacent placeholders are
/// rejected.
pub open spec fn spec_tokenize_at(p: Seq<u8>, i: int, after_param: bool) -> Result<
    Seq<TokV>,
    PatternError,
>
    decreases p.len() - i when 0 <= i <= p.len() via spec_tokenize_at_decreases
{
    if i >= p.len() {
        Ok(Seq::empty())
    } else if is_space_byte(p[i]) {
        let k = space_run_at(p, i);
        match spec_tokenize_at(p, i + k, false) {
            Ok(ts) => Ok(seq![TokV::Space] + ts),
            Err(e) => Err(e),
        }
    } else if is_literal_byte(p[i]) {
        let k = literal_run(p, i);
        match spec_tokenize_at(p, i + k, false) {
            Ok(ts) => Ok(seq![TokV::Required(p.subrange(i, i + k))] + ts),
            Err(e) => Err(e),
        }
    } else if p[i] == 91 {
        let k = literal_run(p, i + 1);
        if i + 1 + k < p.len() && p[i + 1 + k] == 93 {
            if k == 0 {
                Err(PatternError::EmptyGroup(i as usize))
            } else {
                match spec_tokenize_at(p, i + k + 2, false) {
                    Ok(ts) => Ok(seq![TokV::Optional(p.subrange(i + 1, i + 1 + k))] + ts),
                    Err(e) => Err(e),
                }
            }
        } else {
            Err(PatternError::UnclosedGroup(i as usize))
        }
    } else if p[i] == 60 {
        let k = literal_run(p, i + 1);
        if i + 1 + k < p.len() && p[i + 1 + k] == 62 {
            if k == 0 {
                Err(PatternError::EmptyPlaceholder(i as usize))
            } else if after_param {
                Err(PatternError::AdjacentPlaceholders(i as usize))
            } else {
                match spec_tokenize_at(p, i + k + 2, true) {
                    Ok(ts) => Ok(seq![TokV::Parameter] + ts),
                    Err(e) => Err(e),
                }
            }
        } else {
            Err(PatternError::UnclosedPlaceholder(i as usize))
        }
    } else {
        Err(PatternError::UnexpectedByte(i as usize))
    }
}

/// What a whole pattern means: its token sequence, or its first error.
pub open spec fn spec_tokenize(p: Seq<u8>) -> Result<Seq<TokV>, PatternError> {
    if p.len() == 0 {
        Err(PatternError::EmptyPattern)
    } else {
        spec_tokenize_at(p, 0, false)
    }
}

/// The text of a literal token, where it has one.
pub open spec fn literal_text(t: TokV) -> Seq<u8> {
    match t {
        TokV::Required(x) => x,
        TokV::Optional(x) => x,
        TokV::Space => Seq::empty(),
        TokV::Parameter => Seq::empty(),
    }
}

/// What the grammar guarantees of every token sequence it produces:
/// literal texts are nonempty runs of literal-class bytes, space runs
/// were merged into single tokens, and no two placeholders touch.
pub open spec fn wf_tokens(ts: Seq<TokV>) -> bool {
    &&& forall|j: int|
        0 <= j < ts.len() && ((#[trigger] ts[j]) is Required || ts[j] is Optional) ==> {
            &&& literal_text(ts[j]).len() >= 1
            &&& forall|l: int|
                0 <= l < literal_text(ts[j]).len() ==> is_literal_byte(
                    #[trigger] literal_text(ts[j])[l],
                )
        }
    &&& forall|j: int|
        0 <= j < ts.len() - 1 ==> !((#[trigger] ts[j]) is Space && ts[j + 1] is Space)
    &&& forall|j: int|
        0 <= j < ts.len() - 1 ==> !((#[trigger] ts[j]) is Parameter && ts[j + 1] is Parameter)
}

/// The well-formedness of everything `spec_tokenize_at` accepts, plus
/// the two boundary facts the induction carries: a leading space token
/// reflects a space byte at the cut, and no leading placeholder follows
/// a placeholder.
proof fn lemma_tokenize_at_wf(p: Seq<u8>, i: int, after_param: bool, ts: Seq<TokV>)
    requires
        0 <= i <= p.len(),
        spec_tokenize_at(p, i, after_param) == Ok::<Seq<TokV>, PatternError>(ts),
    ensures
        wf_tokens(ts),
        ts.len() > 0 && ts[0] is Space ==> i < p.len() && is_space_byte(p[i]),
        after_param && ts.len() > 0 ==> !(ts[0] is Parameter),
    decreases p.len() - i,
{
    if i >= p.len() {
    } else if is_space_byte(p[i]) {
        let k = space_run_at(p, i);
        lemma_space_run_bounds(p, i);
        let ts1 = spec_tokenize_at(p, i + k, false)->Ok_0;
        lemma_tokenize_at_wf(p, i + k, false, ts1);
        assert(ts =~= seq![TokV::Space] + ts1);
        assert(ts1.len() > 0 ==> !(ts1[0] is Space));
        assert(forall|j: int| 1 <= j < ts.len() ==> ts[j] == ts1[j - 1]);
    } else if is_literal_byte(p[i]) {
        let k = literal_run(p, i);
        lemma_literal_run_bounds(p, i);
        let ts1 = spec_tokenize_at(p, i + k, false)->Ok_0;
        lemma_tokenize_at_wf(p, i + k, false, ts1);
        let t0 = TokV::Required(p.subrange(i, i + k));
        assert(ts =~= seq![t0] + ts1);
        assert(forall|l: int| 0 <= l < k ==> is_literal_byte(#[trigger] literal_text(t0)[l]));
        assert(forall|j: int| 1 <= j < ts.len() ==> ts[j] == ts1[j - 1]);
    } else if p[i] == 91 {
        let k = literal_run(p, i + 1);
        lemma_literal_run_bounds(p, i + 1);
        let ts1 = spec_tokenize_at(p, i + k + 2, false)->Ok_0;
        lemma_tokenize_at_wf(p, i + k + 2, false, ts1);
        let t0 = TokV::Optional(p.subrange(i + 1, i + 1 + k));
        assert(ts =~= seq![t0] + ts1);
        assert(forall|l: int| 0 <= l < k ==> is_literal_byte(#[trigger] literal_text(t0)[l]));
        assert(forall|j: int| 1 <= j < ts.len() ==> ts[j] == ts1[j - 1]);
    } else if p[i] == 60 {
        let k = literal_run(p, i + 1);
        lemma_literal_run_bounds(p, i + 1);
        let ts1 = spec_tokenize_at(p, i + k + 2, true)->Ok_0;
        lemma_tokenize_at_wf(p, i + k + 2, true, ts1);
        assert(ts =~= seq![TokV::Parameter] + ts1);
        assert(ts1.len() > 0 ==> !(ts1[0] is Parameter));
        assert(forall|j: int| 1 <= j < ts.len() ==> ts[j] == ts1[j - 1]);
    }
}

/// Well-formedness passes to every suffix.
pub proof fn lemma_wf_tokens_skip(ts: Seq<TokV>)
    requires
        wf_tokens(ts),
        ts.len() > 0,
    ensures
        wf_tokens(ts.skip(1)),
{
    let ts1 = ts.skip(1);
    assert forall|j: int|
        0 <= j < ts1.len() && ((#[trigger] ts1[j]) is Required || ts1[j] is Optional) implies {
        &&& literal_text(ts1[j]).len() >= 1
        &&& forall|l: int|
            0 <= l < literal_text(ts1[j]).len() ==> is_literal_byte(
                #[trigger] literal_text(ts1[j])[l],
            )
    } by {
        assert(ts1[j] == ts[j + 1]);
    }
    assert forall|j: int| 0 <= j < ts1.len() - 1 implies !((#[trigger] ts1[j]) is Space && ts1[j
        + 1] is Space) by {
        assert(ts1[j] == ts[j + 1] && ts1[j + 1] == ts[j + 2]);
    }
    assert forall|j: int| 0 <= j < ts1.len() - 1 implies !((#[trigger] ts1[j]) is Parameter && ts1[j
        + 1] is Parameter) by {
        assert(ts1[j] == ts[j + 1] && ts1[j + 1] == ts[j + 2]);
    }
}

/// Every token sequence the grammar accepts is well formed.
pub proof fn lemma_tokenize_wf(p: Seq<u8>, ts: Seq<TokV>)
    requires
        spec_tokenize(p) == Ok::<Seq<TokV>, PatternError>(ts),
    ensures
        wf_tokens(ts),
{
    lemma_tokenize_at_wf(p, 0, false, ts);
}

/// Copies `p[i..j]` into a fresh vector.
fn copy_range(p: &[u8], i: usize, j: usize) -> (out: Vec<u8>)
    requires
        i <= j <= p@.len(),
    ensures
        out@ == p@.subrange(i as int, j as int),
{
    let mut out: Vec<u8> = Vec::new();
    let mut k: usize = i;
    while k < j
        invariant
            i <= k <= j <= p@.len(),
            out@ == p@.subrange(i as int, k as int),
        decreases j - k,
    {
        out.push(p[k]);
        assert(out@ =~= p@.subrange(i as int, k + 1 as int));
        k = k + 1;
    }
    out
}

/// Whether a byte may stand inside a literal: anything but a space, a
/// bracket, or a placeholder delimiter.
fn literal_byte(b: u8) -> (r: bool)
    ensures
        r == is_literal_byte(b),
{
    b != 32 && b != 91 && b != 93 && b != 60 && b != 62
}

/// Finds the end of the literal run starting at `i`.
fn scan_literal(p: &[u8], i: usize) -> (r: usize)
    requires
        i <= p@.len(),
    ensures
        r == i + literal_run(p@, i as int),
{
    let n = p.len();
    let mut r: usize = i;
    while r < n && literal_byte(p[r])
        invariant
            i <= r <= n == p@.len(),
            forall|j: int| i <= j < r ==> is_literal_byte(p@[j]),
        decreases n - r,
    {
        r = r + 1;
    }
    proof {
        lemma_literal_run_is(p@, i as int, r as int);
    }
    r
}

/// Finds the end of the space run starting at `i`.
pub(crate) fn scan_spaces(p: &[u8], i: usize) -> (r: usize)
    requires
        i <= p@.len(),
    ensures
        r == i + space_run_at(p@, i as int),
{
    let n = p.len();
    let mut r: usize = i;
    while r < n && p[r] == 32
        invariant
            i <= r <= n == p@.len(),
            forall|j: int| i <= j < r ==> is_space_byte(p@[j]),
        decreases n - r,
    {
        r = r + 1;
    }
    proof {
        lemma_space_run_is(p@, i as int, r as int);
    }
    r
}

pub(crate) proof fn lemma_toks_view_push(ts: Seq<Tok>, t: Tok)
    ensures
        toks_view(ts.push(t)) == toks_view(ts) + seq![t@],
{
    assert(toks_view(ts.push(t)) =~= toks_view(ts) + seq![t@]);
}

/// Parses a command pattern into its token sequence.
///
/// Returns exactly what the grammar says: the tokens of a well-formed
/// pattern, or the first grammar error with its position.
pub fn parse_command(pattern: &[u8]) -> (r: Result<Vec<Tok>, PatternError>)
    ensures
        match r {
            Ok(ts) => spec_tokenize(pattern@) == Ok::<Seq<TokV>, PatternError>(toks_view(ts@)),
            Err(e) => spec_tokenize(pattern@) == Err::<Seq<TokV>, PatternError>(e),
        },
{
    let n = pattern.len();
    if n == 0 {
        return Err(PatternError::EmptyPattern);
    }
    let mut toks: Vec<Tok> = Vec::new();
    let mut i: usize = 0;
    let mut after_param: bool = false;
    while i < n
        invariant
            0 <= i <= n == pattern@.len(),
            n > 0,
            spec_tokenize(pattern@) == (match spec_tokenize_at(pattern@, i as int, after_param) {
                Ok(ts) => Ok::<Seq<TokV>, PatternError>(toks_view(toks@) + ts),
                Err(e) => Err::<Seq<TokV>, PatternError>(e),
            }),
        decreases n - i,
    {
        let ghost pre = toks_view(toks@);
        let b = pattern[i];
        if b == 32 {
            let r = scan_spaces(pattern, i);
            proof {
                lemma_space_run_bounds(pattern@, i as int);
                lemma_toks_view_push(toks@, Tok::Space);
            }
            toks.push(Tok::Space);
            assert(toks_view(toks@) == pre + seq![TokV::Space]);
            i = r;
            after_param = false;
            proof {
                seq_add_assoc_all::<TokV>();
            }
        } else if b != 91 && b != 93 && b != 60 && b != 62 {
            let r = scan_literal(pattern, i);
            proof {
                lemma_literal_run_bounds(pattern@, i as int);
            }
            let text = copy_range(pattern, i, r);
            let ghost tv = TokV::Required(pattern@.subrange(i as int, r as int));
            proof {
                lemma_toks_view_push(toks@, Tok::Required(text));
            }
            toks.push(Tok::Required(text));
            assert(toks_view(toks@) == pre + seq![tv]);
            i = r;
            after_param = false;
            proof {
                seq_add_assoc_all::<TokV>();
            }
        } else if b == 91 {
            let r = scan_literal(pattern, i + 1);
            proof {
                lemma_literal_run_bounds(pattern@, i + 1 as int);
            }
            if r < n && pattern[r] == 93 {
                if r == i + 1 {
                    return Err(PatternError::EmptyGroup(i));
                }
                let text = copy_range(pattern, i + 1, r);
                let ghost tv = TokV::Optional(pattern@.subrange(i + 1 as int, r as int));
                proof {
                    lemma_toks_view_push(toks@, Tok::Optional(text));
                }
                toks.push(Tok::Optional(text));
                assert(toks_view(toks@) == pre + seq![tv]);
                i = r + 1;
                after_param = false;
                proof {
                    seq_add_assoc_all::<TokV>();
                }
            } else {
                return Err(PatternError::UnclosedGroup(i));
            }
        } else if b == 60 {
            let r = scan_literal(pattern, i + 1);
            proof {
                lemma_literal_run_bounds(pattern@, i + 1 as int);
            }
            if r < n && pattern[r] == 62 {
                if r == i + 1 {
                    return Err(PatternError::EmptyPlaceholder(i));
                }
                if after_param {
                    return Err(PatternError::AdjacentPlaceholders(i));
                }
                proof {
                    lemma_toks_view_push(toks@, Tok::Parameter);
                }
                toks.push(Tok::Parameter);
                assert(toks_view(toks@) == pre + seq![TokV::Parameter]);
                i = r + 1;
                after_param = true;
                proof {
                    seq_add_assoc_all::<TokV>();
                }
            } else {
                return Err(PatternError::UnclosedPlaceholder(i));
            }
        } else {
            return Err(PatternError::UnexpectedByte(i));
        }
    }
    assert(spec_tokenize_at(pattern@, i as int, after_param) == Ok::<Seq<TokV>, PatternError>(
        Seq::<TokV>::empty(),
    ));
    assert(toks_view(toks@) + Seq::<TokV>::empty() =~= toks_view(toks@));
    Ok(toks)
}

pub proof fn seq_add_assoc_all<A>()
    ensures
        forall|x: Seq<A>, y: Seq<A>, z: Seq<A>| #[trigger] ((x + y) + z) == x + (y + z),
{
    assert forall|x: Seq<A>, y: Seq<A>, z: Seq<A>| #[trigger] ((x + y) + z) == x + (y + z) by {
        assert((x + y) + z =~= x + (y + z));
    }
}

/// How many placeholders a token sequence holds: the number of schema
/// fields the pattern binds.
pub open spec fn count_params(ts: Seq<TokV>) -> int
    decreases ts.len(),
{
    if ts.len() == 0 {
        0
    } else {
        (if ts[0] is Parameter {
            1int
        } else {
            0int
        }) + count_params(ts.skip(1))
    }
}

pub proof fn lemma_count_params_nonneg(ts: Seq<TokV>)
    ensures
        0 <= count_params(ts) <= ts.len(),
    decreases ts.len(),
{
    if ts.len() > 0 {
        lemma_count_params_nonneg(ts.skip(1));
    }
}

pub proof fn lemma_count_params_concat(a: Seq<TokV>, b: Seq<TokV>)
    ensures
        count_params(a + b) == count_params(a) + count_params(b),
    decreases a.len(),
{
    if a.len() == 0 {
        assert(a + b =~= b);
    } else {
        assert((a + b)[0] == a[0]);
        assert((a + b).skip(1) =~= a.skip(1) + b);
        lemma_count_params_concat(a.skip(1), b);
    }
}

/// The split of the placeholder count at any position.
pub proof fn lemma_count_params_split(ts: Seq<TokV>, i: int)
    requires
        0 <= i <= ts.len(),
    ensures
        count_params(ts) == count_params(ts.take(i)) + count_params(ts.skip(i)),
{
    assert(ts =~= ts.take(i) + ts.skip(i));
    lemma_count_params_concat(ts.take(i), ts.skip(i));
}

/// A space run is the same wherever the suffix is cut off.
pub proof fn lemma_space_run_shift(p: Seq<u8>, i: int)
    requires
        0 <= i <= p.len(),
    ensures
        space_run_at(p, i) == space_run_at(p.skip(i), 0),
{
    lemma_space_run_bounds(p, i);
    let s = p.skip(i);
    let r = space_run_at(p, i);
    assert(forall|j: int| 0 <= j < s.len() ==> #[trigger] s[j] == p[i + j]);
    lemma_space_run_is(s, 0, r);
}

/// Counts the placeholders of a parsed pattern.
pub fn count_parameters(tokens: &Vec<Tok>) -> (n: usize)
    ensures
        n == count_params(toks_view(tokens@)),
{
    let ghost full = toks_view(tokens@);
    let mut n: usize = 0;
    let mut i: usize = 0;
    proof {
        lemma_count_params_nonneg(full);
    }
    while i < tokens.len()
        invariant
            i <= tokens@.len(),
            full == toks_view(tokens@),
            n == count_params(full.take(i as int)),
            n <= i,
        decreases tokens@.len() - i,
    {
        proof {
            assert(full.take(i + 1 as int) =~= full.take(i as int) + seq![full[i as int]]);
            lemma_count_params_concat(full.take(i as int), seq![full[i as int]]);
            assert(seq![full[i as int]].skip(1) =~= Seq::<TokV>::empty());
            assert(count_params(Seq::<TokV>::empty()) == 0);
            assert(count_params(seq![full[i as int]]) == (if full[i as int] is Parameter {
                1int
            } else {
                0int
            }));
        }
        if matches!(&tokens[i], Tok::Parameter) {
            n = n + 1;
        }
        i = i + 1;
    }
    assert(full.take(tokens@.len() as int) =~= full);
    n
}

} // verus!
