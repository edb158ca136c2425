use mp3_player::extension::{is_mp3_extension, is_mp3_file, EntryKind};

#[test]
fn extension_matches_in_any_case() {
    assert!(is_mp3_extension("mp3"));
    assert!(is_mp3_extension("MP3"));
    assert!(is_mp3_extension("Mp3"));
    assert!(is_mp3_extension("mP3"));
}

#[test]
fn extension_rejects_other_text() {
    assert!(!is_mp3_extension("mp3x"));
    assert!(!is_mp3_extension("mp"));
    assert!(!is_mp3_extension(""));
    assert!(!is_mp3_extension("wav"));
    assert!(!is_mp3_extension("mp4"));
}

#[test]
fn file_names_match_in_any_case() {
    assert!(is_mp3_file("SONG.MP3", EntryKind::File));
    assert!(is_mp3_file("song.Mp3", EntryKind::File));
    assert!(is_mp3_file("song.mp3", EntryKind::File));
    assert!(is_mp3_file("music/album/track.01.mp3", EntryKind::File));
}

#[test]
fn file_names_without_mp3_extension_do_not_match() {
    assert!(!is_mp3_file("song.mp3x", EntryKind::File));
    assert!(!is_mp3_file("song", EntryKind::File));
    assert!(!is_mp3_file("music/.mp3", EntryKind::File));
    assert!(!is_mp3_file("mp3", EntryKind::File));
    assert!(!is_mp3_file("song.mp3.txt", EntryKind::File));
}

#[test]
fn only_regular_files_match() {
    assert!(!is_mp3_file("album.mp3", EntryKind::Dir));
    assert!(!is_mp3_file("pipe.mp3", EntryKind::Other));
}
