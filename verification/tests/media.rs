use abcom_ui::media::{
    free_destination_name,
    candidate_from, display_name_from, evict_lru, touch_lru, MEDIA_TEXTURE_CACHE_MAX,
    apply_media_action, attachment_label, decimal_string, destination_name, format_bytes_unit,
    human_bytes_unit, media_display_name, push_unique_paths, MediaAction, MediaRef, SizeUnit,
};

#[test]
fn attachment_label_is_the_file_name() {
    assert_eq!(attachment_label("/home/me/photo.png"), "photo.png");
    assert_eq!(attachment_label("notes.txt"), "notes.txt");
    assert_eq!(attachment_label("/"), "/");
    assert_eq!(attachment_label("dir/.."), "dir/..");
}

#[test]
fn display_name_of_files_and_folders() {
    assert_eq!(media_display_name("/tmp/a.txt", false), "a.txt");
    assert_eq!(media_display_name("/tmp/photos", true), "photos.zip");
    assert_eq!(media_display_name("/", true), "dossier.zip");
    assert_eq!(media_display_name("/", false), "fichier");
}

#[test]
fn unique_paths_are_added_once() {
    let mut target = vec!["/a".to_string()];
    push_unique_paths(&mut target, vec!["/b".to_string(), "/a".to_string(), "/b".to_string()]);
    assert_eq!(target, vec!["/a", "/b"]);
    // Paths equal as paths count as the same one.
    push_unique_paths(&mut target, vec!["/b/".to_string(), "/c".to_string()]);
    assert_eq!(target, vec!["/a", "/b", "/c"]);
}

#[test]
fn unique_paths_law_pushing_again_changes_nothing() {
    let paths = vec!["x".to_string(), "y".to_string()];
    let mut target = Vec::new();
    push_unique_paths(&mut target, paths.clone());
    let once = target.clone();
    push_unique_paths(&mut target, paths);
    assert_eq!(target, once);
}

#[test]
fn decimal_numbers() {
    assert_eq!(decimal_string(0), "0");
    assert_eq!(decimal_string(7), "7");
    assert_eq!(decimal_string(1234567890), "1234567890");
    assert_eq!(decimal_string(u64::MAX), "18446744073709551615");
}

#[test]
fn destination_candidates() {
    assert_eq!(destination_name("photo.png", 0), "photo.png");
    assert_eq!(destination_name("photo.png", 2), "photo (2).png");
    assert_eq!(destination_name("archive.tar.gz", 1), "archive.tar (1).gz");
    assert_eq!(destination_name("README", 3), "README (3)");
    // Only the last component of a name from the network is kept.
    assert_eq!(destination_name("../../etc/passwd", 0), "passwd");
    assert_eq!(destination_name("..", 0), "fichier");
}

#[test]
fn destination_law_candidates_differ() {
    let names: Vec<String> = (0..12).map(|n| destination_name("a.b", n)).collect();
    for i in 0..names.len() {
        for j in 0..names.len() {
            if i != j {
                assert_ne!(names[i], names[j]);
            }
        }
    }
}

#[test]
fn media_actions() {
    let media = Some(MediaRef { id: "42-a.png".to_string(), filename: "a.png".to_string() });
    let mut view = None;
    let mut download = None;
    apply_media_action(MediaAction::View, &media, &mut view, &mut download);
    assert_eq!(view, Some("42-a.png".to_string()));
    assert_eq!(download, None);
    apply_media_action(MediaAction::Download, &media, &mut view, &mut download);
    assert_eq!(download, Some(("42-a.png".to_string(), "a.png".to_string())));
    let mut untouched = None;
    apply_media_action(MediaAction::View, &None, &mut untouched, &mut download);
    assert_eq!(untouched, None);
}

#[test]
fn size_units() {
    assert_eq!(format_bytes_unit(1023), SizeUnit::Bytes);
    assert_eq!(format_bytes_unit(1024), SizeUnit::Kilo);
    assert_eq!(format_bytes_unit(1048576), SizeUnit::Mega);
    assert_eq!(format_bytes_unit(1073741824), SizeUnit::Giga);
    assert_eq!(human_bytes_unit(999), SizeUnit::Bytes);
    assert_eq!(human_bytes_unit(1000), SizeUnit::Kilo);
    assert_eq!(human_bytes_unit(2_500_000), SizeUnit::Mega);
    assert_eq!(human_bytes_unit(1_000_000_000), SizeUnit::Giga);
}

#[test]
fn touched_textures_become_the_most_recent() {
    let mut lru = vec!["a".to_string(), "b".to_string(), "c".to_string()];
    touch_lru(&mut lru, "a");
    assert_eq!(lru, vec!["b", "c", "a"]);
    touch_lru(&mut lru, "d");
    assert_eq!(lru, vec!["b", "c", "a", "d"]);
    touch_lru(&mut lru, "d");
    assert_eq!(lru, vec!["b", "c", "a", "d"]);
}

#[test]
fn eviction_drops_the_oldest_beyond_the_cap() {
    let mut lru: Vec<String> = (0..MEDIA_TEXTURE_CACHE_MAX + 2).map(|i| i.to_string()).collect();
    let removed = evict_lru(&mut lru, MEDIA_TEXTURE_CACHE_MAX);
    assert_eq!(removed, vec!["0", "1"]);
    assert_eq!(lru.len(), MEDIA_TEXTURE_CACHE_MAX);
    assert_eq!(lru[0], "2");
    let removed = evict_lru(&mut lru, MEDIA_TEXTURE_CACHE_MAX);
    assert!(removed.is_empty());
}

#[test]
fn names_from_a_given_last_component() {
    assert_eq!(display_name_from(Some("photos".to_string()), true), "photos.zip");
    assert_eq!(display_name_from(None, true), "dossier.zip");
    assert_eq!(display_name_from(None, false), "fichier");
    assert_eq!(candidate_from(Some("a.tar.gz".to_string()), 4), "a.tar (4).gz");
    assert_eq!(candidate_from(None, 2), "fichier (2)");
    assert_eq!(candidate_from(Some(".hidden".to_string()), 1), " (1).hidden");
}

#[test]
fn downloads_take_the_first_free_name() {
    let taken: Vec<String> = vec!["photo.png".to_string(), "photo (1).png".to_string(), "other".to_string()];
    assert_eq!(free_destination_name("photo.png", &taken), "photo (2).png");
    assert_eq!(free_destination_name("new.txt", &taken), "new.txt");
    assert_eq!(free_destination_name("../../photo.png", &taken), "photo (2).png");
    assert_eq!(free_destination_name("photo.png", &[]), "photo.png");
}

#[test]
fn downloads_stay_in_their_folder() {
    let taken: Vec<String> = vec!["fichier".to_string()];
    assert_eq!(free_destination_name("..", &taken), "fichier (1)");
    assert_eq!(free_destination_name("a/b/", &[]), "b");
    assert_eq!(free_destination_name("a/b/..", &[]), "fichier");
    for name in ["../../etc/passwd", "/", ".", "x/.."] {
        let n = free_destination_name(name, &taken);
        assert!(!n.contains('/') && n != "." && n != ".." && !n.is_empty());
    }
}
