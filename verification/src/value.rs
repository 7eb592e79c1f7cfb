//! Field values and their primitive codecs.
//!
//! Every schema field has one of a small set of value kinds.  Each kind
//! carries its own parse, format and default capability: the codec
//! compiler invokes these per field but does not look inside them.
//!
//! - `Unsigned`: a decimal integer.  Parsing consumes the longest run of
//!   digit bytes (leading zeroes allowed, overflow rejected); formatting
//!   emits the canonical digits with no leading zero; the default is `0`.
//! - `Switch`: an instrument on/off flag.  Parsing consumes exactly the
//!   bytes `ON` or `OFF`; formatting emits them back; the default is off.

use vstd::prelude::*;

verus! {

/// The kind of value a schema field holds.
#[derive(Clone, Copy, PartialEq, Eq, Structural, Debug)]
pub enum ValueKind {
    /// A decimal unsigned integer.
    Unsigned,
    /// An on/off flag written `ON` or `OFF`.
    Switch,
}

/// One field value of a decoded or encoded instance.
#[derive(Clone, Copy, PartialEq, Eq, Structural, Debug)]
pub enum Value {
    Unsigned(u64),
    Switch(bool),
}

pub open spec fn value_kind(v: Value) -> ValueKind {
    match v {
        Value::Unsigned(_) => ValueKind::Unsigned,
        Value::Switch(_) => ValueKind::Switch,
    }
}

/// The zero value a kind falls back to for unbound fields.
pub open spec fn default_value(k: ValueKind) -> Value {
    match k {
        ValueKind::Unsigned => Value::Unsigned(0),
        ValueKind::Switch => Value::Switch(false),
    }
}

pub open spec fn is_digit(b: u8) -> bool {
    48 <= b <= 57
}

/// The decimal digits of `n`, most significant first, no leading zero.
pub open spec fn dec_digits(n: nat) -> Seq<u8>
    decreases n,
{
    if n < 10 {
        seq![(48 + n) as u8]
    } else {
        dec_digits(n / 10).push((48 + n % 10) as u8)
    }
}

/// The number a digit string denotes.
pub open spec fn dec_val(s: Seq<u8>) -> nat
    decreases s.len(),
{
    if s.len() == 0 {
        0
    } else {
        (dec_val(s.drop_last()) * 10 + (s.last() - 48)) as nat
    }
}

/// Length of the run of digit bytes at the front of `s`.
pub open spec fn digit_run(s: Seq<u8>) -> int
    decreases s.len(),
{
    if s.len() > 0 && is_digit(s[0]) {
        1 + digit_run(s.skip(1))
    } else {
        0
    }
}

/// What formatting a value emits.
pub open spec fn spec_format(v: Value) -> Seq<u8> {
    match v {
        Value::Unsigned(n) => dec_digits(n as nat),
        Value::Switch(true) => seq![79u8, 78u8],
        Value::Switch(false) => seq![79u8, 70u8, 70u8],
    }
}

/// What parsing a value of kind `k` from the front of `s` yields: the
/// value and the unconsumed remainder, or nothing if `s` does not start
/// with a value of that kind.
pub open spec fn spec_parse(k: ValueKind, s: Seq<u8>) -> Option<(Value, Seq<u8>)> {
    match k {
        ValueKind::Unsigned => {
            let r = digit_run(s);
            if r == 0 {
                None
            } else if dec_val(s.take(r)) > u64::MAX {
                None
            } else {
                Some((Value::Unsigned(dec_val(s.take(r)) as u64), s.skip(r)))
            }
        },
        ValueKind::Switch => {
            if s.len() >= 2 && s[0] == 79 && s[1] == 78 {
                Some((Value::Switch(true), s.skip(2)))
            } else if s.len() >= 3 && s[0] == 79 && s[1] == 70 && s[2] == 70 {
                Some((Value::Switch(false), s.skip(3)))
            } else {
                None
            }
        },
    }
}

/// Whether an instance is well typed against a kind list: one value per
/// schema field, each of its field's kind.
pub open spec fn instance_matches(ks: Seq<ValueKind>, vals: Seq<Value>) -> bool {
    &&& vals.len() == ks.len()
    &&& forall|i: int| 0 <= i < vals.len() ==> value_kind(#[trigger] vals[i]) == ks[i]
}

pub proof fn lemma_dec_digits(n: nat)
    ensures
        dec_digits(n).len() >= 1,
        forall|j: int| 0 <= j < dec_digits(n).len() ==> is_digit(#[trigger] dec_digits(n)[j]),
        dec_val(dec_digits(n)) == n,
    decreases n,
{
    if n < 10 {
        let s = dec_digits(n);
        assert(s.drop_last() =~= Seq::<u8>::empty());
        assert(dec_val(Seq::<u8>::empty()) == 0);
        assert(s.last() == (48 + n) as u8);
        assert(dec_val(s) == (0 * 10 + ((48 + n) as u8 - 48)) as nat);
    } else {
        lemma_dec_digits(n / 10);
        let a = dec_digits(n / 10);
        let d = (48 + n % 10) as u8;
        let s = a.push(d);
        assert(s.drop_last() =~= a);
        assert(s.last() == d);
        assert(dec_val(s) == dec_val(a) * 10 + (d - 48));
        vstd::arithmetic::div_mod::lemma_fundamental_div_mod(n as int, 10);
        assert(forall|j: int| 0 <= j < s.len() ==> is_digit(#[trigger] s[j]));
    }
}

/// The digit run of a digit string followed by a non-digit is the whole
/// digit string.
pub proof fn lemma_digit_run_concat(s: Seq<u8>, t: Seq<u8>)
    requires
        forall|j: int| 0 <= j < s.len() ==> is_digit(#[trigger] s[j]),
        t.len() == 0 || !is_digit(t[0]),
    ensures
        digit_run(s + t) == s.len(),
    decreases s.len(),
{
    if s.len() == 0 {
        assert(s + t =~= t);
    } else {
        assert((s + t)[0] == s[0]);
        assert((s + t).skip(1) =~= s.skip(1) + t);
        lemma_digit_run_concat(s.skip(1), t);
    }
}

/// The run is pinned down by its boundary facts.
pub proof fn lemma_digit_run_is(s: Seq<u8>, r: int)
    requires
        0 <= r <= s.len(),
        forall|j: int| 0 <= j < r ==> is_digit(#[trigger] s[j]),
        r < s.len() ==> !is_digit(s[r]),
    ensures
        digit_run(s) == r,
    decreases r,
{
    if r == 0 {
    } else {
        assert(forall|j: int| 0 <= j < r - 1 ==> is_digit(#[trigger] s.skip(1)[j]) == is_digit(
            s[j + 1],
        ));
        lemma_digit_run_is(s.skip(1), r - 1);
    }
}

/// Reading one more digit multiplies the value by ten and adds it.
pub proof fn lemma_dec_val_step(s: Seq<u8>, j: int)
    requires
        0 <= j < s.len(),
        is_digit(s[j]),
    ensures
        dec_val(s.take(j + 1)) == dec_val(s.take(j)) * 10 + (s[j] - 48),
{
    assert(s.take(j + 1).drop_last() =~= s.take(j));
    assert(s.take(j + 1).last() == s[j]);
    assert(dec_val(s.take(j + 1)) == (dec_val(s.take(j + 1).drop_last()) * 10 + (s.take(j + 1).last()
        - 48)) as nat);
}

/// A longer digit prefix never denotes a smaller number.
pub proof fn lemma_dec_val_grows(s: Seq<u8>, j: int, r: int)
    requires
        0 <= j <= r <= s.len(),
        forall|l: int| 0 <= l < r ==> is_digit(#[trigger] s[l]),
    ensures
        dec_val(s.take(j)) <= dec_val(s.take(r)),
    decreases r - j,
{
    if j < r {
        lemma_dec_val_step(s, j);
        assert(dec_val(s.take(j)) <= dec_val(s.take(j)) * 10 + (s[j] - 48));
        lemma_dec_val_grows(s, j + 1, r);
    }
}

/// If the first `m` bytes are digits, the run reaches at least `m`.
pub proof fn lemma_digit_run_at_least(s: Seq<u8>, m: int)
    requires
        0 <= m <= s.len(),
        forall|j: int| 0 <= j < m ==> is_digit(#[trigger] s[j]),
    ensures
        digit_run(s) >= m,
    decreases m,
{
    if m > 0 {
        assert(forall|j: int| 0 <= j < m - 1 ==> is_digit(#[trigger] s.skip(1)[j]) == is_digit(
            s[j + 1],
        ));
        lemma_digit_run_at_least(s.skip(1), m - 1);
    } else {
        lemma_digit_run_digits(s);
    }
}

/// Everything inside the digit run is a digit.
pub proof fn lemma_digit_run_digits(s: Seq<u8>)
    ensures
        0 <= digit_run(s) <= s.len(),
        forall|j: int| 0 <= j < digit_run(s) ==> is_digit(#[trigger] s[j]),
    decreases s.len(),
{
    if s.len() > 0 && is_digit(s[0]) {
        lemma_digit_run_digits(s.skip(1));
        assert(forall|j: int| 1 <= j < digit_run(s) ==> is_digit(#[trigger] s[j]) == is_digit(
            s.skip(1)[j - 1],
        ));
    }
}

/// Parsing inverts formatting: a formatted value followed by anything
/// that cannot extend it parses back to the value, leaving exactly the
/// remainder.  For a `Switch` nothing can extend `ON` or `OFF`; a
/// formatted `Unsigned` must not be followed by another digit.
pub proof fn lemma_parse_format(v: Value, tail: Seq<u8>)
    requires
        v is Unsigned ==> tail.len() == 0 || !is_digit(tail[0]),
    ensures
        spec_parse(value_kind(v), spec_format(v) + tail) == Some((v, tail)),
{
    let s = spec_format(v) + tail;
    match v {
        Value::Unsigned(n) => {
            let dd = dec_digits(n as nat);
            lemma_dec_digits(n as nat);
            lemma_digit_run_concat(dd, tail);
            assert(digit_run(s) == dd.len());
            assert(s.take(dd.len() as int) =~= dd);
            assert(s.skip(dd.len() as int) =~= tail);
        },
        Value::Switch(b) => {
            if b {
                assert(s[0] == 79 && s[1] == 78);
                assert(s.skip(2) =~= tail);
            } else {
                assert(s[0] == 79 && s[1] == 70 && s[2] == 70);
                assert(s.skip(3) =~= tail);
            }
        },
    }
}

/// The default value a field of kind `k` receives when the pattern does
/// not bind it.
pub fn default_for(k: ValueKind) -> (v: Value)
    ensures
        v == default_value(k),
{
    match k {
        ValueKind::Unsigned => Value::Unsigned(0),
        ValueKind::Switch => Value::Switch(false),
    }
}

/// Appends the decimal digits of `n`.
fn push_decimal(n: u64, out: &mut Vec<u8>)
    ensures
        final(out)@ == old(out)@ + dec_digits(n as nat),
    decreases n,
{
    if n < 10 {
        out.push(48 + n as u8);
        assert(out@ =~= old(out)@ + dec_digits(n as nat));
    } else {
        push_decimal(n / 10, out);
        out.push(48 + (n % 10) as u8);
        assert(out@ =~= old(out)@ + dec_digits(n as nat));
    }
}

/// Appends the formatted text of a value: the codec's `format`.
pub fn format_value(v: &Value, out: &mut Vec<u8>)
    ensures
        final(out)@ == old(out)@ + spec_format(*v),
{
    match v {
        Value::Unsigned(n) => {
            push_decimal(*n, out);
        },
        Value::Switch(b) => {
            if *b {
                out.push(79);
                out.push(78);
            } else {
                out.push(79);
                out.push(70);
                out.push(70);
            }
            assert(out@ =~= old(out)@ + spec_format(*v));
        },
    }
}

/// Parses a value of kind `k` at position `at` of `msg`: the codec's
/// `parse`.  Returns the value and the position just past it, or nothing
/// where the spec-level parse fails.
pub fn parse_value(k: ValueKind, msg: &[u8], at: usize) -> (r: Option<(Value, usize)>)
    requires
        at <= msg@.len(),
    ensures
        match r {
            Some(p) => at <= p.1 <= msg@.len() && spec_parse(k, msg@.skip(at as int)) == Some(
                (p.0, msg@.skip(p.1 as int)),
            ),
            None => spec_parse(k, msg@.skip(at as int)) is None,
        },
{
    let ghost s = msg@.skip(at as int);
    let n = msg.len();
    match k {
        ValueKind::Unsigned => {
            let mut j: usize = at;
            let mut acc: u64 = 0;
            while j < n && digit_byte(msg[j])
                invariant
                    at <= j <= n == msg@.len(),
                    s == msg@.skip(at as int),
                    forall|l: int| 0 <= l < j - at ==> is_digit(#[trigger] s[l]),
                    acc == dec_val(s.take(j - at)),
                decreases n - j,
            {
                let d = msg[j] - 48;
                proof {
                    assert(s[j - at] == msg@[j as int]);
                    lemma_dec_val_step(s, j - at);
                }
                if acc > (u64::MAX - d as u64) / 10 {
                    // The digits read so far already exceed the value
                    // range, and further digits only grow the value: the
                    // whole run is out of range.
                    proof {
                        vstd::arithmetic::div_mod::lemma_fundamental_div_mod(
                            (u64::MAX - d) as int,
                            10,
                        );
                        assert(dec_val(s.take(j - at + 1)) > u64::MAX);
                        lemma_digit_run_digits(s);
                        lemma_digit_run_at_least(s, j - at + 1);
                        lemma_dec_val_grows(s, j - at + 1, digit_run(s));
                    }
                    return None;
                }
                proof {
                    vstd::arithmetic::div_mod::lemma_fundamental_div_mod((u64::MAX - d) as int, 10);
                }
                acc = acc * 10 + d as u64;
                j = j + 1;
            }
            proof {
                assert(j < n ==> s[j - at] == msg@[j as int]);
                lemma_digit_run_is(s, j - at);
            }
            if j == at {
                return None;
            }
            proof {
                assert(s.skip(j - at) =~= msg@.skip(j as int));
            }
            Some((Value::Unsigned(acc), j))
        },
        ValueKind::Switch => {
            proof {
                assert(forall|l: int| 0 <= l < s.len() ==> #[trigger] s[l] == msg@[at + l]);
            }
            let rem = n - at;
            if rem >= 2 && msg[at] == 79 && msg[at + 1] == 78 {
                proof {
                    assert(s.skip(2) =~= msg@.skip(at + 2));
                }
                Some((Value::Switch(true), at + 2))
            } else if rem >= 3 && msg[at] == 79 && msg[at + 1] == 70 && msg[at + 2] == 70 {
                proof {
                    assert(s.skip(3) =~= msg@.skip(at + 3));
                }
                Some((Value::Switch(false), at + 3))
            } else {
                None
            }
        },
    }
}

/// Whether a byte is a decimal digit.
fn digit_byte(b: u8) -> (r: bool)
    ensures
        r == is_digit(b),
{
    48 <= b && b <= 57
}

} // verus!
