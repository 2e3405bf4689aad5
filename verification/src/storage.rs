use vstd::prelude::*;

verus! {

/// What the storage tab of the settings asked for in one frame.
#[derive(Clone, Copy, Debug, PartialEq, Eq, Structural)]
pub struct StorageActions {
    /// Recompute the disk usage.
    pub refresh: bool,
    /// Recompute the purge preview.
    pub preview: bool,
    /// Purge for real.
    pub purge: bool,
    /// Save the retention settings.
    pub save: bool,
    /// Open the attachments folder in the system's file manager.
    pub open_folder: bool,
}

/// What the storage tab remembers between frames.
#[derive(Clone, Copy, Debug, PartialEq, Eq, Structural)]
pub struct StorageFlags {
    /// A disk usage scan was asked for and has not answered yet.
    pub scan_pending: bool,
    /// A purge preview is at hand.
    pub has_preview: bool,
    /// A purge preview was asked for and has not answered yet.
    pub preview_pending: bool,
}

/// What the application is to do for the storage tab.
#[derive(Clone, Copy, Debug, PartialEq, Eq, Structural)]
pub struct StorageCommands {
    /// Save the retention settings.
    pub save_settings: bool,
    /// Open the attachments folder.
    pub open_folder: bool,
    /// Ask for the disk usage.
    pub request_usage: bool,
    /// Ask for a real purge.
    pub purge: bool,
    /// Ask for a purge preview (a simulation).
    pub request_preview: bool,
}

/// The storage tab's flags and commands after `actions`: saving and a new
/// preview request drop the preview at hand; a scan is asked for unless one
/// is pending; a real purge is asked for and nothing more; otherwise a
/// preview is asked for, while the tab is shown, when none is at hand or
/// pending.
pub open spec fn storage_effect(
    actions: StorageActions,
    flags: StorageFlags,
    on_storage_tab: bool,
) -> (StorageFlags, StorageCommands) {
    let scan = actions.refresh && !flags.scan_pending;
    let scan_pending = flags.scan_pending || scan;
    if actions.purge {
        (
            StorageFlags { scan_pending, has_preview: false, preview_pending: flags.preview_pending },
            StorageCommands {
                save_settings: actions.save,
                open_folder: actions.open_folder,
                request_usage: scan,
                purge: true,
                request_preview: false,
            },
        )
    } else {
        let has_preview = flags.has_preview && !actions.save && !actions.preview;
        let ask = on_storage_tab && !has_preview && !flags.preview_pending;
        (
            StorageFlags { scan_pending, has_preview, preview_pending: flags.preview_pending || ask },
            StorageCommands {
                save_settings: actions.save,
                open_folder: actions.open_folder,
                request_usage: scan,
                purge: false,
                request_preview: ask,
            },
        )
    }
}

/// Applies the storage tab's actions of one frame to its flags, and says
/// what the application is to do.
pub fn apply_storage_actions(
    actions: StorageActions,
    flags: &mut StorageFlags,
    on_storage_tab: bool,
) -> (r: StorageCommands)
    ensures
        (*final(flags), r) == storage_effect(actions, *old(flags), on_storage_tab),
{
    let mut commands = StorageCommands {
        save_settings: false,
        open_folder: false,
        request_usage: false,
        purge: false,
        request_preview: false,
    };
    if actions.save {
        commands.save_settings = true;
        flags.has_preview = false;
    }
    if actions.open_folder {
        commands.open_folder = true;
    }
    if actions.refresh && !flags.scan_pending {
        flags.scan_pending = true;
        commands.request_usage = true;
    }
    if actions.purge {
        flags.has_preview = false;
        commands.purge = true;
        return commands;
    }
    if actions.preview {
        flags.has_preview = false;
    }
    if on_storage_tab && !flags.has_preview && !flags.preview_pending {
        flags.preview_pending = true;
        commands.request_preview = true;
    }
    commands
}

/// A disk scan or a purge preview is never asked for again while one is
/// pending, and once asked for it is pending; a real purge never comes with
/// a preview request.
pub proof fn storage_requests_are_not_repeated(
    actions: StorageActions,
    flags: StorageFlags,
    on_storage_tab: bool,
)
    ensures
        ({
            let (after, commands) = storage_effect(actions, flags, on_storage_tab);
            &&& commands.request_usage ==> !flags.scan_pending && after.scan_pending
            &&& commands.request_preview ==> !flags.preview_pending && after.preview_pending
            &&& flags.scan_pending ==> after.scan_pending
            &&& commands.purge ==> !commands.request_preview && !after.has_preview
        }),
{
}

} // verus!
