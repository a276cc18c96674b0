use flax::{Entity, World};
use ivy_core::editable::EditorOpts;
use ivy_core::editor::plugin::{CommandExt, HistoryManager, Selection, SetSelection};
use ivy_core::editor::tools::select_tool::click_selection;
use ivy_core::editor::tools::transform_tool::{press_selection, switch_snap, switch_space, ManipulationSpace};
use ivy_core::editor::ui::browser::{next_filename_candidate, AssetType, Code, FileType, SizeUnit};

fn entities(n: usize) -> Vec<Entity> {
    let mut world = World::new();
    (0..n).map(|_| world.spawn()).collect()
}

#[test]
fn append_moves_an_entity_to_the_end() {
    let e = entities(3);
    let selection = Selection::new(vec![e[0], e[1], e[2]]);
    assert_eq!(selection.append(e[0]).entities(), &[e[1], e[2], e[0]]);
    let single = Selection::single(e[1]);
    assert_eq!(single.append(e[2]).entities(), &[e[1], e[2]]);
}

#[test]
fn append_toggle_adds_or_removes() {
    let e = entities(3);
    let selection = Selection::new(vec![e[0], e[1]]);
    let added = selection.append_toggle(e[2]);
    assert_eq!(added.entities(), &[e[0], e[1], e[2]]);
    let removed = selection.append_toggle(e[0]);
    assert_eq!(removed.entities(), &[e[1]]);
}

#[test]
fn toggling_twice_restores_the_selection() {
    let e = entities(3);
    let selection = Selection::new(vec![e[0], e[1]]);
    let back = selection.append_toggle(e[2]).append_toggle(e[2]);
    assert_eq!(back, selection);
}

#[test]
fn default_selection_is_empty() {
    assert!(Selection::default().entities().is_empty());
    let e = entities(1);
    let selection = Selection::single(e[0]);
    assert_eq!(selection.clone(), selection);
}

#[test]
fn set_selection_returns_its_inverse() {
    let e = entities(2);
    let mut current = Selection::single(e[0]);
    let command = SetSelection { new_selection: Selection::single(e[1]) };
    let undo = command.execute(&mut current);
    assert_eq!(current.entities(), &[e[1]]);
    assert_eq!(undo.new_selection.entities(), &[e[0]]);
    let redo = undo.execute_dyn(&mut current).unwrap();
    assert_eq!(current.entities(), &[e[0]]);
    assert_eq!(redo.new_selection.entities(), &[e[1]]);
}

#[test]
fn history_undoes_and_redoes_edits() {
    let e = entities(3);
    let mut current = Selection::default();
    let mut history: HistoryManager<SetSelection> = HistoryManager::new();

    history.execute(&mut current, SetSelection { new_selection: Selection::single(e[0]) }).unwrap();
    history.execute(&mut current, SetSelection { new_selection: Selection::single(e[1]) }).unwrap();
    assert_eq!(current.entities(), &[e[1]]);

    history.undo(&mut current).unwrap();
    assert_eq!(current.entities(), &[e[0]]);
    history.undo(&mut current).unwrap();
    assert!(current.entities().is_empty());
    // Nothing left to undo: the selection stays.
    history.undo(&mut current).unwrap();
    assert!(current.entities().is_empty());

    history.redo(&mut current).unwrap();
    assert_eq!(current.entities(), &[e[0]]);

    // A new edit drops what could be redone.
    history.execute(&mut current, SetSelection { new_selection: Selection::single(e[2]) }).unwrap();
    history.redo(&mut current).unwrap();
    assert_eq!(current.entities(), &[e[2]]);
    history.undo(&mut current).unwrap();
    assert_eq!(current.entities(), &[e[0]]);
}

#[test]
fn default_history_has_nothing_to_redo() {
    let e = entities(1);
    let mut current = Selection::single(e[0]);
    let mut history: HistoryManager<SetSelection> = HistoryManager::default();
    history.redo(&mut current).unwrap();
    assert_eq!(current.entities(), &[e[0]]);
}

#[test]
fn editor_range_is_mapped_at_both_ends() {
    let opts = EditorOpts { range: Some((1u32, 5u32)) };
    let mapped = opts.map_range(|v| v * 10);
    assert_eq!(mapped.range, Some((10, 50)));
    let none: EditorOpts<u32> = EditorOpts::default();
    assert_eq!(none.map_range(|v| v + 1).range, None);
}

#[test]
fn files_are_classified_by_extension() {
    assert_eq!(FileType::from_extension(Some("md")), Some(FileType::Text));
    assert_eq!(FileType::from_extension(Some("webp")), Some(FileType::Image));
    assert_eq!(FileType::from_extension(Some("exr")), Some(FileType::Hdri));
    assert_eq!(FileType::from_extension(Some("gz")), Some(FileType::Archive));
    assert_eq!(FileType::from_extension(Some("blend1")), Some(FileType::Blend));
    assert_eq!(FileType::from_extension(Some("yml")), Some(FileType::Code(Code::Json)));
    assert_eq!(FileType::from_extension(Some("glb")), Some(FileType::Gltf));
    assert_eq!(FileType::from_extension(Some("rs")), Some(FileType::Code(Code::Rust)));
    assert_eq!(FileType::from_extension(Some("wgsl")), Some(FileType::Code(Code::Wgsl)));
    assert_eq!(FileType::from_extension(Some("exe")), Some(FileType::Other));
    assert_eq!(FileType::from_extension(None), Some(FileType::Other));
    assert_eq!(FileType::from_extension(Some("asset")), None);
}

#[test]
fn assets_are_classified_by_their_tag() {
    assert_eq!(AssetType::from_tag("Template"), AssetType::Template);
    assert_eq!(AssetType::from_tag("Material"), AssetType::Material);
    assert_eq!(AssetType::from_tag("Mesh"), AssetType::Asset);
    assert_eq!(FileType::from_asset_tag(Some("Material")), FileType::Asset(AssetType::Material));
    assert_eq!(FileType::from_asset_tag(None), FileType::Error);
}

#[test]
fn file_type_predicates() {
    assert!(FileType::Text.is_text());
    assert!(FileType::Code(Code::Python).is_text());
    assert!(!FileType::Image.is_text());
    assert!(FileType::Image.is_image());
    assert!(!FileType::Hdri.is_image());
    assert!(FileType::Asset(AssetType::Template).is_asset());
    assert!(!FileType::Directory.is_asset());
}

#[test]
fn new_file_names_count_up() {
    assert_eq!(next_filename_candidate("scene", 0), "scene");
    assert_eq!(next_filename_candidate("scene", 1), "scene (1)");
    assert_eq!(next_filename_candidate("New Template", 12), "New Template (12)");
}

#[test]
fn appending_never_repeats_an_entity() {
    let e = entities(3);
    let mut selection = Selection::default();
    for &id in [e[0], e[1], e[0], e[2], e[1], e[1]].iter() {
        selection = selection.append(id);
    }
    assert_eq!(selection.entities(), &[e[0], e[2], e[1]]);
    let toggled = selection.append_toggle(e[2]).append_toggle(e[0]).append_toggle(e[0]);
    assert_eq!(toggled.entities(), &[e[1], e[0]]);
}

#[test]
fn clicks_select_entities() {
    let e = entities(3);
    let selection = Selection::new(vec![e[0], e[1]]);

    let plain = click_selection(&selection, Some(e[2]), false).unwrap();
    assert_eq!(plain.new_selection.entities(), &[e[2]]);

    let added = click_selection(&selection, Some(e[2]), true).unwrap();
    assert_eq!(added.new_selection.entities(), &[e[0], e[1], e[2]]);

    let removed = click_selection(&selection, Some(e[0]), true).unwrap();
    assert_eq!(removed.new_selection.entities(), &[e[1]]);

    let cleared = click_selection(&selection, None, false).unwrap();
    assert!(cleared.new_selection.entities().is_empty());

    assert!(click_selection(&selection, None, true).is_none());
}

#[test]
fn sizes_are_shown_in_the_largest_unit_reached() {
    assert_eq!(SizeUnit::of_size(0), SizeUnit::Bytes);
    assert_eq!(SizeUnit::of_size(1023), SizeUnit::Bytes);
    assert_eq!(SizeUnit::of_size(1024), SizeUnit::Kilobytes);
    assert_eq!(SizeUnit::of_size(1024 * 1024 - 1), SizeUnit::Kilobytes);
    assert_eq!(SizeUnit::of_size(1024 * 1024), SizeUnit::Megabytes);
    assert_eq!(SizeUnit::of_size(5 * 1024 * 1024 * 1024), SizeUnit::Gigabytes);
    assert_eq!(SizeUnit::Megabytes.bytes(), 1_048_576);
    assert_eq!(SizeUnit::Bytes.label(), "bytes");
    assert_eq!(SizeUnit::Gigabytes.label(), "GB");
}

#[test]
fn every_attempt_tries_a_new_name() {
    let names: Vec<String> = (0..200).map(|attempt| next_filename_candidate("a (1)", attempt)).collect();
    for i in 0..names.len() {
        for j in (i + 1)..names.len() {
            assert_ne!(names[i], names[j]);
        }
    }
    assert_eq!(names[10], "a (1) (10)");
}

#[test]
fn transform_tool_presses_edit_the_selection() {
    let e = entities(3);
    let selection = Selection::new(vec![e[0], e[1]]);

    assert!(press_selection(&selection, true, Some(e[2]), false).is_none());

    let plain = press_selection(&selection, false, Some(e[2]), false).unwrap();
    assert_eq!(plain.new_selection.entities(), &[e[2]]);

    let toggled = press_selection(&selection, false, Some(e[1]), true).unwrap();
    assert_eq!(toggled.new_selection.entities(), &[e[0]]);

    let cleared = press_selection(&selection, false, None, true).unwrap();
    assert!(cleared.new_selection.entities().is_empty());

    let empty = Selection::default();
    assert!(press_selection(&empty, false, None, false).is_none());
    assert!(press_selection(&empty, false, None, true).is_none());
}

#[test]
fn the_space_switch_cycles_on_presses() {
    assert_eq!(switch_space(ManipulationSpace::Global, true), ManipulationSpace::Local);
    assert_eq!(switch_space(ManipulationSpace::Local, true), ManipulationSpace::View);
    assert_eq!(switch_space(ManipulationSpace::View, true), ManipulationSpace::Global);
    assert_eq!(switch_space(ManipulationSpace::View, false), ManipulationSpace::View);
}

#[test]
fn the_snap_switch_toggles_on_presses() {
    assert!(switch_snap(false, true));
    assert!(!switch_snap(true, true));
    assert!(switch_snap(true, false));
    assert!(!switch_snap(false, false));
}
