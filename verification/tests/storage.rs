use abcom_ui::storage::{apply_storage_actions, StorageActions, StorageCommands, StorageFlags};

fn none() -> StorageActions {
    StorageActions { refresh: false, preview: false, purge: false, save: false, open_folder: false }
}

fn idle() -> StorageFlags {
    StorageFlags { scan_pending: false, has_preview: false, preview_pending: false }
}

#[test]
fn opening_the_tab_asks_for_a_preview_once() {
    let mut flags = idle();
    let c = apply_storage_actions(none(), &mut flags, true);
    assert!(c.request_preview);
    assert!(flags.preview_pending);
    let c = apply_storage_actions(none(), &mut flags, true);
    assert!(!c.request_preview);
}

#[test]
fn a_scan_is_not_asked_twice() {
    let mut flags = idle();
    let refresh = StorageActions { refresh: true, ..none() };
    assert!(apply_storage_actions(refresh, &mut flags, false).request_usage);
    assert!(!apply_storage_actions(refresh, &mut flags, false).request_usage);
}

#[test]
fn a_purge_drops_the_preview_and_asks_nothing_else() {
    let mut flags = StorageFlags { scan_pending: false, has_preview: true, preview_pending: false };
    let c = apply_storage_actions(StorageActions { purge: true, save: true, ..none() }, &mut flags, true);
    assert_eq!(
        c,
        StorageCommands { save_settings: true, open_folder: false, request_usage: false, purge: true, request_preview: false }
    );
    assert!(!flags.has_preview);
}

#[test]
fn saving_asks_for_a_fresh_preview_on_the_tab() {
    let mut flags = StorageFlags { scan_pending: true, has_preview: true, preview_pending: false };
    let c = apply_storage_actions(StorageActions { save: true, open_folder: true, ..none() }, &mut flags, true);
    assert!(c.save_settings && c.open_folder && c.request_preview && !c.request_usage);
    assert!(flags.preview_pending && !flags.has_preview && flags.scan_pending);
}
