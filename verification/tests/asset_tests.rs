use bevy::platform::collections::HashMap;
use bevy_vista::asset::{VistaUiAsset, VistaUiAssetError, VistaUiNodeAsset, VISTA_UI_ASSET_VERSION};
use bevy_vista::document::{apply_blueprint_command, BlueprintCommand, WidgetBlueprintDocument};
use bevy_vista::messages::asset_error_to_string;
use bevy_vista::registry::WidgetRegistry;
use bevy_vista::style::WidgetStyle;

fn registry() -> WidgetRegistry {
    WidgetRegistry::new()
}

fn node(id: u64, children: Vec<u64>) -> VistaUiNodeAsset {
    VistaUiNodeAsset {
        id,
        name: format!("n{id}"),
        widget_path: "common/button".to_owned(),
        style: WidgetStyle::default(),
        props: HashMap::default(),
        slot: None,
        children,
    }
}

fn asset(roots: Vec<u64>, nodes: Vec<VistaUiNodeAsset>) -> VistaUiAsset {
    VistaUiAsset { version: VISTA_UI_ASSET_VERSION, roots, nodes }
}

#[test]
fn vista_ui_asset_round_trips_blueprint_document() {
    let reg = WidgetRegistry::new();
    let mut document = WidgetBlueprintDocument::default();
    let root = apply_blueprint_command(BlueprintCommand::AddRoot { widget_path: "common/button".to_owned() }, &mut document, &reg).ok().unwrap();
    let child = apply_blueprint_command(BlueprintCommand::AddChild { parent: root, widget_path: "common/label".to_owned() }, &mut document, &reg).ok().unwrap();
    document.nodes.get_mut(&root).unwrap().name = "Root".to_owned();
    document.nodes.get_mut(&child).unwrap().name = "Child".to_owned();
    document.nodes.get_mut(&root).unwrap().style.overrides.insert("width".to_owned(), "Px(240.0)".to_owned());
    document.nodes.get_mut(&child).unwrap().props.insert("text".to_owned(), "Child".to_owned());

    let asset = VistaUiAsset::from_document(&document);
    assert_eq!(asset.version, VISTA_UI_ASSET_VERSION);
    assert_eq!(asset.nodes.iter().map(|n| n.id).collect::<Vec<_>>(), vec![root, child]);
    let restored = asset.to_blueprint_document().ok().expect("asset should restore into blueprint");

    assert_eq!(restored.roots, document.roots);
    assert_eq!(restored.nodes.len(), document.nodes.len());
    assert_eq!(restored.nodes.get(&root).map(|node| node.name.as_str()), Some("Root"));
    assert_eq!(restored.nodes.get(&child).and_then(|node| node.parent), Some(root));
    assert_eq!(restored.nodes.get(&root).and_then(|node| node.style.overrides.get("width")).map(String::as_str), Some("Px(240.0)"));
    assert_eq!(restored.nodes.get(&child).and_then(|node| node.props.get("text")).map(String::as_str), Some("Child"));
    assert_eq!(restored.nodes.get(&root).unwrap().children, vec![child]);
    assert_eq!(restored.next_id.get(), 3);
    assert!(restored.dirty);
    assert_eq!(restored.pending_select, None);
}

#[test]
fn asset_nodes_are_sorted_by_id() {
    let reg = registry();
    let mut document = WidgetBlueprintDocument::default();
    for _ in 0..5 {
        apply_blueprint_command(BlueprintCommand::AddRoot { widget_path: "common/button".to_owned() }, &mut document, &reg).ok().unwrap();
    }
    let asset = VistaUiAsset::from_document(&document);
    assert_eq!(asset.nodes.iter().map(|n| n.id).collect::<Vec<_>>(), vec![1, 2, 3, 4, 5]);
    assert_eq!(asset.roots, vec![1, 2, 3, 4, 5]);
}

#[test]
fn empty_asset_reads_as_empty_document() {
    let asset = VistaUiAsset::default();
    assert_eq!(asset.version, 1);
    let doc = asset.to_blueprint_document().ok().unwrap();
    assert!(doc.roots.is_empty());
    assert!(doc.nodes.is_empty());
    assert_eq!(doc.next_id.get(), 1);
}

#[test]
fn next_id_follows_the_largest_id() {
    let doc = asset(vec![7, 3], vec![node(3, vec![]), node(7, vec![12]), node(12, vec![])]).to_blueprint_document().ok().unwrap();
    assert_eq!(doc.next_id.get(), 13);
    assert_eq!(doc.nodes.get(&12).unwrap().parent, Some(7));
    assert_eq!(doc.nodes.get(&3).unwrap().parent, None);
}

#[test]
fn other_versions_are_refused() {
    let mut a = asset(vec![], vec![]);
    a.version = 2;
    assert!(matches!(a.to_blueprint_document(), Err(VistaUiAssetError::UnsupportedVersion(2))));
}

#[test]
fn repeated_ids_are_refused() {
    let a = asset(vec![1], vec![node(1, vec![]), node(2, vec![]), node(1, vec![])]);
    assert!(matches!(a.to_blueprint_document(), Err(VistaUiAssetError::DuplicateNodeId(1))));
}

#[test]
fn roots_must_be_nodes() {
    let a = asset(vec![1, 9], vec![node(1, vec![])]);
    assert!(matches!(a.to_blueprint_document(), Err(VistaUiAssetError::MissingNode(9))));
}

#[test]
fn children_must_be_nodes() {
    let a = asset(vec![1], vec![node(1, vec![4])]);
    match a.to_blueprint_document() {
        Err(VistaUiAssetError::MissingChild { parent, child }) => {
            assert_eq!(parent, 1);
            assert_eq!(child, 4);
        }
        _ => panic!("a missing child should be refused"),
    }
}

#[test]
fn a_child_claimed_twice_is_refused() {
    let a = asset(vec![1, 2], vec![node(1, vec![3]), node(2, vec![3]), node(3, vec![])]);
    match a.to_blueprint_document() {
        Err(VistaUiAssetError::InvalidParentLink { child, expected_parent, actual_parent }) => {
            assert_eq!(child, 3);
            assert_eq!(expected_parent, Some(2));
            assert_eq!(actual_parent, Some(1));
        }
        _ => panic!("a child with two parents should be refused"),
    }
}

#[test]
fn a_root_with_a_parent_is_refused() {
    let a = asset(vec![1, 2], vec![node(1, vec![2]), node(2, vec![])]);
    match a.to_blueprint_document() {
        Err(VistaUiAssetError::InvalidParentLink { child, expected_parent, actual_parent }) => {
            assert_eq!(child, 2);
            assert_eq!(expected_parent, None);
            assert_eq!(actual_parent, Some(1));
        }
        _ => panic!("a root that is a child should be refused"),
    }
}

#[test]
fn asset_errors_read_as_sentences() {
    assert_eq!(asset_error_to_string(VistaUiAssetError::UnsupportedVersion(7)), "unsupported asset version 7");
    assert_eq!(asset_error_to_string(VistaUiAssetError::DuplicateNodeId(12)), "duplicate node id 12");
    assert_eq!(asset_error_to_string(VistaUiAssetError::MissingNode(0)), "missing node 0");
    assert_eq!(asset_error_to_string(VistaUiAssetError::MissingChild { parent: 1, child: 305 }), "missing child 305 referenced by 1");
    assert_eq!(
        asset_error_to_string(VistaUiAssetError::InvalidParentLink { child: 3, expected_parent: None, actual_parent: Some(18446744073709551615) }),
        "invalid parent link for node 3: expected None, actual Some(18446744073709551615)"
    );
    assert_eq!(asset_error_to_string(VistaUiAssetError::CycleDetected(40)), "cycle detected at node 40");
    assert_eq!(asset_error_to_string(VistaUiAssetError::RonDecode("bad ron".to_owned())), "bad ron");
    assert_eq!(asset_error_to_string(VistaUiAssetError::RonEncode("no".to_owned())), "no");
}

#[test]
fn documents_built_by_commands_are_well_formed() {
    let reg = registry();
    let mut document = WidgetBlueprintDocument::default();
    assert!(document.is_well_formed());
    let root = apply_blueprint_command(BlueprintCommand::AddRoot { widget_path: "common/button".to_owned() }, &mut document, &reg).ok().unwrap();
    apply_blueprint_command(BlueprintCommand::AddChild { parent: root, widget_path: "common/label".to_owned() }, &mut document, &reg).ok().unwrap();
    assert!(document.is_well_formed());
    let restored = VistaUiAsset::from_document(&document).to_blueprint_document().ok().unwrap();
    assert!(restored.is_well_formed());
}

#[test]
fn loaded_documents_may_not_be_well_formed() {
    let orphan = asset(vec![1], vec![node(1, vec![]), node(2, vec![])]).to_blueprint_document().ok().unwrap();
    assert!(!orphan.is_well_formed());
    let twice = asset(vec![1, 1], vec![node(1, vec![])]).to_blueprint_document().ok().unwrap();
    assert!(!twice.is_well_formed());
    let fine = asset(vec![7, 3], vec![node(3, vec![]), node(7, vec![12]), node(12, vec![])]).to_blueprint_document().ok().unwrap();
    assert!(fine.is_well_formed());
}

#[test]
fn removal_follows_children_lists_in_loaded_documents() {
    let reg = registry();
    let mut orphan = asset(vec![1], vec![node(1, vec![]), node(2, vec![3]), node(3, vec![])]).to_blueprint_document().ok().unwrap();
    assert!(!orphan.is_well_formed());
    assert!(orphan.has_acyclic_parents());
    assert_eq!(apply_blueprint_command(BlueprintCommand::RemoveNode { node: 2 }, &mut orphan, &reg).ok(), Some(2));
    assert_eq!(orphan.nodes.len(), 1);
    assert_eq!(orphan.roots, vec![1]);
    let looped = asset(vec![1], vec![node(1, vec![]), node(2, vec![3]), node(3, vec![2])]).to_blueprint_document().ok().unwrap();
    assert!(!looped.has_acyclic_parents());
    assert!(!looped.is_well_formed());
}
