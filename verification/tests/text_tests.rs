use bevy_vista::icons::decode_b64_image;
use bevy_vista::messages::asset_error_to_string;
use bevy_vista::asset::VistaUiAssetError;
use bevy_vista::document::BlueprintCommandError;
use bevy_vista::text::{default_blueprint_node_name, humanize_field_name, humanize_variant_name, is_blank};

#[test]
fn node_names_take_the_last_path_segment() {
    assert_eq!(default_blueprint_node_name("common/button"), "button");
    assert_eq!(default_blueprint_node_name("button"), "button");
    assert_eq!(default_blueprint_node_name("a/b/"), "");
}

#[test]
fn blank_means_only_white_space() {
    assert!(is_blank(""));
    assert!(is_blank(" \t\n\u{3000}"));
    assert!(!is_blank(" x "));
}

#[test]
fn variant_names_are_spelled_out() {
    assert_eq!(humanize_variant_name("ArrowLeft"), "Arrow Left");
    assert_eq!(humanize_variant_name("VMin"), "V Min");
    assert_eq!(humanize_variant_name("lower"), "lower");
    assert_eq!(humanize_variant_name(""), "");
}

#[test]
fn base64_images_decode() {
    assert_eq!(decode_b64_image("aGVsbG8=").ok(), Some(b"hello".to_vec()));
    let err = decode_b64_image("not base64!").err().expect("invalid input should fail");
    assert!(err.starts_with("base64 decode error: "));
    assert!(err.len() > "base64 decode error: ".len());
    let expected = base64::Engine::decode(&base64::engine::general_purpose::STANDARD, "not base64!").unwrap_err();
    assert_eq!(err, format!("base64 decode error: {}", expected));
}

#[test]
fn command_errors_read_as_sentences() {
    assert_eq!(BlueprintCommandError::UnknownWidgetPath("a/b".to_owned()).message(), "unknown widget path: a/b");
    assert_eq!(BlueprintCommandError::ParentNotFound(42).message(), "parent node not found: 42");
    assert_eq!(BlueprintCommandError::NodeNotFound(0).message(), "node not found: 0");
    assert_eq!(BlueprintCommandError::InvalidMove.message(), "invalid node move");
    assert_eq!(
        BlueprintCommandError::ChildConstraintViolated { parent: 3, parent_widget: "common/label".to_owned() }.message(),
        "child constraint violated for parent 3 (common/label)"
    );
    assert_eq!(asset_error_to_string(VistaUiAssetError::MissingNode(1234567890)), "missing node 1234567890");
}

#[test]
fn field_names_read_as_words() {
    assert_eq!(humanize_field_name("max_popup_width"), "Max Popup Width");
    assert_eq!(humanize_field_name("width"), "Width");
    assert_eq!(humanize_field_name("a__b"), "A  B");
    assert_eq!(humanize_field_name("_x"), " X");
    assert_eq!(humanize_field_name("x_"), "X ");
    assert_eq!(humanize_field_name("straße_ßig"), "Straße SSig");
    assert_eq!(humanize_field_name(""), "");
}
