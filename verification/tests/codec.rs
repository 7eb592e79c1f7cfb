//! End-to-end tests of the pattern grammar, the compiled codecs, and the
//! attribute cascade.

use scpi_codec::attributes::{AttrForm, AttrItem, Attribute, AttributeError, Lit, ScpiAttributes};
use scpi_codec::command::{compile_codecs, compile_variant_codecs, DeriveError, VariantDecl};
use scpi_codec::decode::decode_variant;
use scpi_codec::pattern::{parse_command, PatternError, Tok};
use scpi_codec::schema::{CompileError, NamedField, Shape};
use scpi_codec::value::{Value, ValueKind};

fn unsigned_shape(n: usize) -> Shape {
    Shape::Unnamed(vec![ValueKind::Unsigned; n])
}

#[test]
fn tokenizes_the_example_pattern() {
    let toks = parse_command(b"MEAS:VOLT[:DC]? <param>").expect("pattern must parse");
    assert_eq!(toks.len(), 5);
    assert!(matches!(&toks[0], Tok::Required(t) if t == b"MEAS:VOLT"));
    assert!(matches!(&toks[1], Tok::Optional(t) if t == b":DC"));
    assert!(matches!(&toks[2], Tok::Required(t) if t == b"?"));
    assert!(matches!(&toks[3], Tok::Space));
    assert!(matches!(&toks[4], Tok::Parameter));
}

#[test]
fn tokenizer_rejects_bad_patterns() {
    assert_eq!(parse_command(b""), Err(PatternError::EmptyPattern));
    assert_eq!(parse_command(b"A[B"), Err(PatternError::UnclosedGroup(1)));
    assert_eq!(parse_command(b"A[]B"), Err(PatternError::EmptyGroup(1)));
    assert_eq!(parse_command(b"A<"), Err(PatternError::UnclosedPlaceholder(1)));
    assert_eq!(parse_command(b"A<>B"), Err(PatternError::EmptyPlaceholder(1)));
    assert_eq!(parse_command(b"<a><b>"), Err(PatternError::AdjacentPlaceholders(3)));
    assert_eq!(parse_command(b"A]B"), Err(PatternError::UnexpectedByte(1)));
    assert_eq!(parse_command(b"A>B"), Err(PatternError::UnexpectedByte(1)));
}

#[test]
fn placeholders_separated_by_other_tokens_are_fine() {
    let toks = parse_command(b"<a>,<b>").expect("pattern must parse");
    assert_eq!(toks.len(), 3);
    assert!(matches!(&toks[0], Tok::Parameter));
    assert!(matches!(&toks[1], Tok::Required(t) if t == b","));
    assert!(matches!(&toks[2], Tok::Parameter));
}

#[test]
fn example_decodes_with_and_without_the_optional_span() {
    let (dec, _enc) = compile_codecs(b"MEAS:VOLT[:DC]? <param>", &unsigned_shape(1))
        .expect("command must compile");
    assert_eq!(dec.decode(b"MEAS:VOLT:DC? 3"), Some(vec![Value::Unsigned(3)]));
    assert_eq!(dec.decode(b"MEAS:VOLT? 3"), Some(vec![Value::Unsigned(3)]));
    assert_eq!(dec.decode(b"MEAS:VOLT:DC?3"), None);
}

#[test]
fn example_encodes_canonically() {
    let (_dec, enc) = compile_codecs(b"MEAS:VOLT[:DC]? <param>", &unsigned_shape(1))
        .expect("command must compile");
    assert_eq!(enc.encode(&vec![Value::Unsigned(3)]), b"MEAS:VOLT:DC? 3".to_vec());
}

#[test]
fn round_trip_through_encode_and_decode() {
    let (dec, enc) = compile_codecs(b"CONF:FREQ <hz>,<avg>", &unsigned_shape(2))
        .expect("command must compile");
    let instance = vec![Value::Unsigned(1234567), Value::Unsigned(16)];
    let message = enc.encode(&instance);
    assert_eq!(message, b"CONF:FREQ 1234567,16".to_vec());
    assert_eq!(dec.decode(&message), Some(instance));
}

#[test]
fn required_literal_must_match_exactly() {
    let (dec, _) = compile_codecs(b"MEAS:VOLT[:DC]? <param>", &unsigned_shape(1))
        .expect("command must compile");
    assert_eq!(dec.decode(b"MEAZ:VOLT:DC? 3"), None);
    assert_eq!(dec.decode(b"MEAS:VOLT:DC! 3"), None);
    assert_eq!(dec.decode(b"MEAS:VOL? 3"), None);
}

#[test]
fn partially_present_optional_span_does_not_match() {
    let (dec, _) = compile_codecs(b"MEAS:VOLT[:DC]? <param>", &unsigned_shape(1))
        .expect("command must compile");
    assert_eq!(dec.decode(b"MEAS:VOLT:D? 3"), None);
}

#[test]
fn input_spaces_are_flexible_and_output_spaces_canonical() {
    let (dec, enc) = compile_codecs(b"SOUR:CURR <ma>", &unsigned_shape(1))
        .expect("command must compile");
    assert_eq!(dec.decode(b"SOUR:CURR     42"), Some(vec![Value::Unsigned(42)]));
    assert_eq!(dec.decode(b"SOUR:CURR42"), None);
    assert_eq!(enc.encode(&vec![Value::Unsigned(42)]), b"SOUR:CURR 42".to_vec());
}

#[test]
fn unbound_trailing_fields_default_on_decode_and_vanish_on_encode() {
    let (dec, enc) = compile_codecs(b"TRIG:COUN <n>", &unsigned_shape(3))
        .expect("command must compile");
    assert_eq!(
        dec.decode(b"TRIG:COUN 9"),
        Some(vec![Value::Unsigned(9), Value::Unsigned(0), Value::Unsigned(0)])
    );
    let a = enc.encode(&vec![Value::Unsigned(9), Value::Unsigned(0), Value::Unsigned(0)]);
    let b = enc.encode(&vec![Value::Unsigned(9), Value::Unsigned(77), Value::Unsigned(5)]);
    assert_eq!(a, b);
    assert_eq!(a, b"TRIG:COUN 9".to_vec());
}

#[test]
fn trailing_residue_is_rejected() {
    let (dec, _) = compile_codecs(b"MEAS:VOLT[:DC]? <param>", &unsigned_shape(1))
        .expect("command must compile");
    assert_eq!(dec.decode(b"MEAS:VOLT:DC? 3X"), None);
    assert_eq!(dec.decode(b"MEAS:VOLT:DC? 3 "), None);
    assert_eq!(dec.decode(b"MEAS:VOLT:DC? 3,"), None);
}

#[test]
fn unsigned_values_allow_leading_zeroes_and_reject_overflow() {
    let (dec, enc) = compile_codecs(b"SET <v>", &unsigned_shape(1)).expect("command must compile");
    assert_eq!(dec.decode(b"SET 007"), Some(vec![Value::Unsigned(7)]));
    assert_eq!(
        dec.decode(b"SET 18446744073709551615"),
        Some(vec![Value::Unsigned(u64::MAX)])
    );
    assert_eq!(dec.decode(b"SET 18446744073709551616"), None);
    assert_eq!(dec.decode(b"SET "), None);
    assert_eq!(enc.encode(&vec![Value::Unsigned(7)]), b"SET 7".to_vec());
}

#[test]
fn switch_values_parse_and_format_on_off() {
    let shape = Shape::Named(vec![NamedField { name: b"state".to_vec(), kind: ValueKind::Switch }]);
    let (dec, enc) = compile_codecs(b"OUTP <state>", &shape).expect("command must compile");
    assert_eq!(dec.decode(b"OUTP ON"), Some(vec![Value::Switch(true)]));
    assert_eq!(dec.decode(b"OUTP OFF"), Some(vec![Value::Switch(false)]));
    assert_eq!(dec.decode(b"OUTP MAYBE"), None);
    assert_eq!(enc.encode(&vec![Value::Switch(true)]), b"OUTP ON".to_vec());
    assert_eq!(enc.encode(&vec![Value::Switch(false)]), b"OUTP OFF".to_vec());
}

#[test]
fn unit_shape_compiles_literal_only_commands() {
    let (dec, enc) = compile_codecs(b"*RST", &Shape::Unit).expect("command must compile");
    assert_eq!(dec.decode(b"*RST"), Some(vec![]));
    assert_eq!(dec.decode(b"*RST2"), None);
    assert_eq!(enc.encode(&vec![]), b"*RST".to_vec());
}

#[test]
fn compilation_reports_each_error() {
    assert_eq!(
        compile_codecs(b"A[", &Shape::Unit).err(),
        Some(CompileError::MalformedPattern(PatternError::UnclosedGroup(1)))
    );
    assert_eq!(
        compile_codecs(b"SET <v>", &Shape::Union).err(),
        Some(CompileError::UnsupportedShape)
    );
    assert_eq!(
        compile_codecs(b"SET <v>,<w>", &unsigned_shape(1)).err(),
        Some(CompileError::TooManyParameters)
    );
}

fn scpi_command_attr(text: &[u8]) -> Attribute {
    Attribute {
        path: b"scpi".to_vec(),
        form: AttrForm::List(vec![AttrItem::NameValue {
            name: b"command".to_vec(),
            value: Lit::Str(text.to_vec()),
        }]),
    }
}

#[test]
fn apply_reads_the_command_attribute() {
    let attrs = vec![scpi_command_attr(b"*IDN?")];
    let out = ScpiAttributes::new().apply(&attrs).expect("attributes must apply");
    assert_eq!(out.command, Some(b"*IDN?".to_vec()));
}

#[test]
fn apply_ignores_foreign_attributes_and_cascades_overwrites() {
    let attrs = vec![
        Attribute { path: b"derive".to_vec(), form: AttrForm::OtherForm },
        scpi_command_attr(b"OLD"),
        scpi_command_attr(b"NEW"),
    ];
    let out = ScpiAttributes::new().apply(&attrs).expect("attributes must apply");
    assert_eq!(out.command, Some(b"NEW".to_vec()));
}

#[test]
fn apply_rejects_malformed_attributes() {
    let bare = vec![Attribute { path: b"scpi".to_vec(), form: AttrForm::Uninterpretable }];
    assert_eq!(ScpiAttributes::new().apply(&bare), Err(AttributeError::InvalidAttribute));

    let word = vec![Attribute { path: b"scpi".to_vec(), form: AttrForm::OtherForm }];
    assert_eq!(ScpiAttributes::new().apply(&word), Err(AttributeError::InvalidAttribute));

    let literal = vec![Attribute {
        path: b"scpi".to_vec(),
        form: AttrForm::List(vec![AttrItem::LiteralItem]),
    }];
    assert_eq!(ScpiAttributes::new().apply(&literal), Err(AttributeError::InvalidItem));

    let unknown = vec![Attribute {
        path: b"scpi".to_vec(),
        form: AttrForm::List(vec![AttrItem::NameValue {
            name: b"pattern".to_vec(),
            value: Lit::Str(b"X".to_vec()),
        }]),
    }];
    assert_eq!(ScpiAttributes::new().apply(&unknown), Err(AttributeError::UnknownOption));

    let nonstring = vec![Attribute {
        path: b"scpi".to_vec(),
        form: AttrForm::List(vec![AttrItem::NameValue {
            name: b"command".to_vec(),
            value: Lit::Other,
        }]),
    }];
    assert_eq!(ScpiAttributes::new().apply(&nonstring), Err(AttributeError::InvalidValue));
}

#[test]
fn variant_commands_inherit_and_override_the_group_level() {
    let base = ScpiAttributes { command: Some(b"*CLS".to_vec()) };
    let variants = vec![vec![], vec![scpi_command_attr(b"*RST")]];
    let cmds = scpi_codec::attributes::resolve_variant_commands(&base, &variants)
        .expect("variants must resolve");
    assert_eq!(cmds, vec![b"*CLS".to_vec(), b"*RST".to_vec()]);
}

#[test]
fn a_variant_with_no_command_anywhere_is_an_error() {
    let base = ScpiAttributes::new();
    let variants = vec![vec![scpi_command_attr(b"*RST")], vec![]];
    assert_eq!(
        scpi_codec::attributes::resolve_variant_commands(&base, &variants),
        Err(AttributeError::MissingCommand(1))
    );
}

#[test]
fn variant_group_compiles_and_dispatches_in_order() {
    let base = ScpiAttributes::new();
    let variants = vec![
        VariantDecl { attrs: vec![scpi_command_attr(b"*RST")], shape: Shape::Unit },
        VariantDecl { attrs: vec![scpi_command_attr(b"*CLS")], shape: Shape::Unit },
        VariantDecl {
            attrs: vec![scpi_command_attr(b"MEAS:VOLT[:DC]? <param>")],
            shape: unsigned_shape(1),
        },
    ];
    let codecs = compile_variant_codecs(&base, &variants).expect("variants must compile");
    assert_eq!(codecs.len(), 3);
    let decoders: Vec<scpi_codec::decode::Decoder> =
        codecs.into_iter().map(|(d, _)| d).collect();
    assert_eq!(decode_variant(&decoders, b"*CLS"), Some((1, vec![])));
    assert_eq!(decode_variant(&decoders, b"*RST"), Some((0, vec![])));
    assert_eq!(
        decode_variant(&decoders, b"MEAS:VOLT? 8"),
        Some((2, vec![Value::Unsigned(8)]))
    );
    assert_eq!(decode_variant(&decoders, b"*ESR?"), None);
}

#[test]
fn variant_dispatch_picks_the_first_match() {
    let base = ScpiAttributes::new();
    let variants = vec![
        VariantDecl { attrs: vec![scpi_command_attr(b"AB")], shape: Shape::Unit },
        VariantDecl { attrs: vec![scpi_command_attr(b"AB[C]")], shape: Shape::Unit },
    ];
    let codecs = compile_variant_codecs(&base, &variants).expect("variants must compile");
    let decoders: Vec<scpi_codec::decode::Decoder> =
        codecs.into_iter().map(|(d, _)| d).collect();
    // both variants accept "AB"; declaration order decides
    assert_eq!(decode_variant(&decoders, b"AB"), Some((0, vec![])));
    assert_eq!(decode_variant(&decoders, b"ABC"), Some((1, vec![])));
}

#[test]
fn reencoding_a_tolerant_input_yields_the_canonical_message() {
    let (dec, enc) = compile_codecs(b"MEAS:VOLT[:DC]? <param>", &unsigned_shape(1))
        .expect("command must compile");
    let vs = dec.decode(b"MEAS:VOLT?    007").expect("tolerant input must decode");
    assert_eq!(enc.encode(&vs), b"MEAS:VOLT:DC? 7".to_vec());
}

#[test]
fn variant_group_reports_a_bad_variant_pattern() {
    let base = ScpiAttributes::new();
    let variants = vec![VariantDecl { attrs: vec![scpi_command_attr(b"A[")], shape: Shape::Unit }];
    assert_eq!(
        compile_variant_codecs(&base, &variants).err(),
        Some(DeriveError::Compile(CompileError::MalformedPattern(PatternError::UnclosedGroup(1))))
    );
}

#[test]
fn named_and_unnamed_shapes_bind_fields_in_declaration_order() {
    let named = Shape::Named(vec![
        NamedField { name: b"channel".to_vec(), kind: ValueKind::Unsigned },
        NamedField { name: b"enabled".to_vec(), kind: ValueKind::Switch },
    ]);
    let (dec, enc) = compile_codecs(b"ROUT:CHAN <channel>,<enabled>", &named)
        .expect("command must compile");
    assert_eq!(
        dec.decode(b"ROUT:CHAN 2,ON"),
        Some(vec![Value::Unsigned(2), Value::Switch(true)])
    );
    assert_eq!(
        enc.encode(&vec![Value::Unsigned(2), Value::Switch(true)]),
        b"ROUT:CHAN 2,ON".to_vec()
    );
}
