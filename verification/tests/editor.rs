use nbt_editor::document::{
    compress_document, decompress_document, save_step, should_load, take_to_save, DocumentStatus,
    NbtCompression, SaveStep,
};
use nbt_editor::entries::{apply_entry_action, Clipboard, EntryAction};
use nbt_editor::i18n::CommonTranslationCache;
use nbt_editor::tabs::{NbtNodeId, TabRegistry};

#[test]
fn node_children_extend_the_path() {
    let root = NbtNodeId::default();
    assert_eq!(root.parent(), &[] as &[usize]);
    assert_eq!(root.idx(), 0);
    let mut childs = NbtNodeId::new(vec![1, 2], 3).childs();
    let a = childs.next().unwrap();
    assert_eq!(a.parent(), &[1, 2, 3]);
    assert_eq!(a.idx(), 0);
    let b = childs.nth(2).unwrap();
    assert_eq!(b.idx(), 3);
    assert_eq!(childs.next().unwrap().idx(), 4);
    let mut grand = b.childs();
    assert_eq!(grand.next().unwrap().parent(), &[1, 2, 3, 3]);
    assert!(childs.nth(usize::MAX).is_none());
    assert_eq!(childs.next().unwrap().idx(), 5);
}

#[test]
fn tab_titles_are_counted() {
    let mut reg = TabRegistry::new();
    let a = String::from("a.nbt");
    let b = String::from("b.nbt");
    assert_eq!(reg.insert(&a), Some(1));
    assert!(!reg.uses_long_title(&a));
    assert_eq!(reg.insert(&a), Some(2));
    assert!(reg.uses_long_title(&a));
    assert_eq!(reg.insert(&b), Some(3));
    assert_eq!(reg.count_of(&a), 2);
    reg.on_close(&a);
    assert_eq!(reg.count_of(&a), 1);
    assert!(!reg.uses_long_title(&a));
    reg.on_close(&a);
    assert_eq!(reg.count_of(&a), 0);
    reg.on_close(&a);
    assert_eq!(reg.count_of(&a), 0);
    assert_eq!(reg.count_of(&b), 1);
    assert_eq!(reg.next_tab_id(), Some(4));
}

#[test]
fn documents_round_trip_through_each_codec() {
    let nbt: Vec<u8> = (0..3000u32).map(|i| (i % 97) as u8).collect();
    for c in [NbtCompression::Uncompressed, NbtCompression::Gzip, NbtCompression::Zlib] {
        let stored = compress_document(&nbt, c).unwrap();
        if c != NbtCompression::Uncompressed {
            assert_ne!(stored, nbt);
        }
        assert_eq!(decompress_document(&stored, c).unwrap(), nbt);
    }
    assert!(decompress_document(&[1, 2, 3], NbtCompression::Gzip).is_err());
    assert!(decompress_document(&[1, 2, 3], NbtCompression::Zlib).is_err());
}

#[test]
fn translation_cache_starts_empty() {
    let c = CommonTranslationCache::default();
    assert!(c.app_title.is_empty());
    assert!(c.type_hint_list_strs.is_empty());
}

#[test]
fn saving_hands_over_only_trees() {
    let mut s = DocumentStatus::Loaded;
    assert_eq!(take_to_save(&mut s), DocumentStatus::Loaded);
    assert_eq!(s, DocumentStatus::Saving);
    assert_eq!(save_step(DocumentStatus::Loaded, true), SaveStep::Write);
    assert_eq!(save_step(DocumentStatus::Loaded, false), SaveStep::AskForLocation);
    // A second save while the first is under way writes nothing.
    assert_eq!(take_to_save(&mut s), DocumentStatus::Saving);
    assert_eq!(s, DocumentStatus::Saving);
    assert_eq!(save_step(DocumentStatus::Saving, true), SaveStep::Finish);
    for mut other in [DocumentStatus::Loading, DocumentStatus::ReadError] {
        assert_eq!(take_to_save(&mut other), other);
        assert_eq!(save_step(other, true), SaveStep::Finish);
        assert_eq!(save_step(other, false), SaveStep::Finish);
    }
}

#[test]
fn only_waiting_tabs_with_a_path_are_loaded() {
    assert!(should_load(DocumentStatus::Loading, true));
    assert!(!should_load(DocumentStatus::Loading, false));
    assert!(!should_load(DocumentStatus::Loaded, true));
    assert!(!should_load(DocumentStatus::Saving, true));
    assert!(!should_load(DocumentStatus::ReadError, true));
}

#[test]
fn translation_cache_takes_texts_in_key_order() {
    let keys = nbt_editor::i18n::common_translation_keys();
    assert_eq!(keys.len(), nbt_editor::i18n::COMMON_TRANSLATION_COUNT);
    assert_eq!(keys[0], "app-title");
    assert_eq!(keys[keys.len() - 1], "type-hint-list-strs");
    let texts: Vec<String> = keys.iter().map(|k| format!("<{k}>")).collect();
    let cache = CommonTranslationCache::from_texts(texts);
    assert_eq!(cache.app_title, "<app-title>");
    assert_eq!(cache.menu_file_save_as, "<menu-file-save-as>");
    assert_eq!(cache.type_hint_list_strs, "<type-hint-list-strs>");
}

#[test]
fn compound_entry_edits_follow_the_menu() {
    let mut entries: Vec<(String, u32)> = vec![("a".into(), 1), ("b".into(), 2), ("c".into(), 3)];
    let mut clip: Option<Clipboard<String, u32>> = None;
    apply_entry_action(&mut entries, EntryAction::InsertAbove, 0, &mut clip, String::new());
    assert_eq!(entries.len(), 3);
    apply_entry_action(&mut entries, EntryAction::Copy, 1, &mut clip, String::new());
    assert!(matches!(&clip, Some(Clipboard::CompoundEntry(k, 2)) if k == "b"));
    apply_entry_action(&mut entries, EntryAction::InsertBelow, 2, &mut clip, String::new());
    assert_eq!(entries, vec![("a".into(), 1), ("b".into(), 2), ("c".into(), 3), ("b".into(), 2)]);
    apply_entry_action(&mut entries, EntryAction::Cut, 0, &mut clip, String::new());
    assert!(matches!(&clip, Some(Clipboard::CompoundEntry(k, 1)) if k == "a"));
    apply_entry_action(&mut entries, EntryAction::ValueInPlace, 0, &mut clip, String::new());
    assert_eq!(entries[0], ("b".to_string(), 1));
    apply_entry_action(&mut entries, EntryAction::TagAndValueInPlace, 1, &mut clip, String::new());
    assert_eq!(entries[1], ("a".to_string(), 1));
    let mut list_clip = Some(Clipboard::ListEntry(9u32));
    apply_entry_action(&mut entries, EntryAction::TagAndValueInPlace, 1, &mut list_clip, String::new());
    assert_eq!(entries[1], ("a".to_string(), 1));
    apply_entry_action(&mut entries, EntryAction::InsertAbove, 1, &mut list_clip, String::new());
    assert_eq!(entries[1], (String::new(), 9));
    apply_entry_action(&mut entries, EntryAction::Delete, 1, &mut list_clip, String::new());
    assert_eq!(entries, vec![("b".into(), 1), ("a".into(), 1), ("b".into(), 2)]);
}
