use herdr::choices::{
    is_unsafe_label_character, payload_exceeds_depth, validate_choices_document, validate_id,
    validate_label, validate_payload, DocumentFailure, PayloadShape, PluginActionChoicesParseError,
    RawChoice, MAX_CHOICES_OUTPUT_BYTES,
};

fn nested(depth: usize) -> PayloadShape {
    let mut shape = PayloadShape::Scalar;
    for _ in 0..depth {
        shape = PayloadShape::Array(vec![shape]);
    }
    shape
}

fn choice(id: &str, label: &str) -> RawChoice {
    RawChoice {
        id: id.to_string(),
        label: label.to_string(),
        payload: PayloadShape::Scalar,
        payload_bytes: Ok(4),
    }
}

#[test]
fn identities_must_be_present_short_and_unique() {
    let mut ids = Vec::new();
    assert_eq!(validate_id("", &mut ids), Err(PluginActionChoicesParseError::EmptyId));
    assert_eq!(
        validate_id(&"x".repeat(121), &mut ids),
        Err(PluginActionChoicesParseError::IdTooLong)
    );
    assert_eq!(validate_id(&"x".repeat(120), &mut ids), Ok(()));
    assert_eq!(validate_id("a", &mut ids), Ok(()));
    assert_eq!(
        validate_id("a", &mut ids),
        Err(PluginActionChoicesParseError::DuplicateId("a".to_string()))
    );
}

#[test]
fn labels_reject_control_bidi_and_zero_width_text() {
    assert_eq!(validate_label("Deploy"), Ok(()));
    assert_eq!(validate_label(""), Err(PluginActionChoicesParseError::EmptyOrZeroWidthLabel));
    assert_eq!(
        validate_label("\u{200b}"),
        Err(PluginActionChoicesParseError::EmptyOrZeroWidthLabel)
    );
    assert_eq!(validate_label("a\u{202e}b"), Err(PluginActionChoicesParseError::UnsafeLabel));
    assert_eq!(validate_label("a\nb"), Err(PluginActionChoicesParseError::UnsafeLabel));
    assert_eq!(validate_label(&"x".repeat(257)), Err(PluginActionChoicesParseError::LabelTooLong));
    assert!(is_unsafe_label_character('\u{7f}'));
    assert!(is_unsafe_label_character('\u{2066}'));
    assert!(!is_unsafe_label_character('\u{2070}'));
}

#[test]
fn payload_depth_and_size_are_bounded() {
    assert!(!payload_exceeds_depth(&nested(16), 0));
    assert!(payload_exceeds_depth(&nested(17), 0));
    assert_eq!(validate_payload(&nested(16), &Ok(8192)), Ok(()));
    assert_eq!(
        validate_payload(&nested(16), &Ok(8193)),
        Err(PluginActionChoicesParseError::PayloadTooLarge)
    );
    assert_eq!(
        validate_payload(&nested(17), &Ok(1)),
        Err(PluginActionChoicesParseError::PayloadTooDeep)
    );
}

#[test]
fn documents_are_checked_in_order() {
    assert_eq!(
        validate_choices_document(MAX_CHOICES_OUTPUT_BYTES + 1, &Err(DocumentFailure::InvalidUtf8)),
        Err(PluginActionChoicesParseError::OutputTooLarge)
    );
    assert_eq!(
        validate_choices_document(10, &Err(DocumentFailure::InvalidUtf8)),
        Err(PluginActionChoicesParseError::InvalidUtf8)
    );
    assert_eq!(
        validate_choices_document(10, &Ok((2, vec![]))),
        Err(PluginActionChoicesParseError::UnsupportedVersion(2))
    );
    let many: Vec<RawChoice> = (0..65).map(|i| choice(&format!("c{i}"), "x")).collect();
    assert_eq!(
        validate_choices_document(10, &Ok((1, many))),
        Err(PluginActionChoicesParseError::TooManyChoices)
    );
    assert_eq!(
        validate_choices_document(10, &Ok((1, vec![choice("a", "A"), choice("b", "B")]))),
        Ok(())
    );
    assert_eq!(
        validate_choices_document(10, &Ok((1, vec![choice("a", "A"), choice("a", "")]))),
        Err(PluginActionChoicesParseError::DuplicateId("a".to_string()))
    );
}
