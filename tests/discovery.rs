use mp3_player::discovery::{Discovery, DiscoveryError, Entry, RootFilePolicy};
use mp3_player::extension::EntryKind;

fn file(path: &str) -> Entry {
    Entry { path: path.to_string(), kind: EntryKind::File }
}

fn dir(path: &str) -> Entry {
    Entry { path: path.to_string(), kind: EntryKind::Dir }
}

fn start_dir(root: &str, recursive: bool) -> Discovery {
    match Discovery::start(root.to_string(), EntryKind::Dir, recursive, RootFilePolicy::FilterByExtension) {
        Ok(d) => d,
        Err(_) => panic!("a directory root starts a discovery"),
    }
}

#[test]
fn flat_discovery_counts_mp3_files_only() {
    let mut d = start_dir("music", false);
    assert_eq!(d.next_dir(), Some("music".to_string()));
    let entries = vec![
        file("music/b.MP3"),
        file("music/notes.txt"),
        file("music/a.mp3"),
        file("music/cover.jpg"),
        dir("music/live"),
        file("music/c.Mp3"),
    ];
    d.on_listing(&entries);
    assert!(d.is_done());
    assert_eq!(d.next_dir(), None);
    let files = d.into_files();
    assert_eq!(files.len(), 3);
    assert_eq!(files, vec!["music/a.mp3", "music/b.MP3", "music/c.Mp3"]);
}

#[test]
fn flat_discovery_never_descends() {
    let mut d = start_dir("music", false);
    d.on_listing(&vec![dir("music/one"), file("music/top.mp3")]);
    assert_eq!(d.next_dir(), None);
    assert_eq!(d.into_files(), vec!["music/top.mp3"]);
}

#[test]
fn recursive_discovery_reaches_nested_files() {
    let mut d = start_dir("music", true);
    d.on_listing(&vec![dir("music/one"), file("music/top.mp3")]);
    assert_eq!(d.next_dir(), Some("music/one".to_string()));
    d.on_listing(&vec![dir("music/one/two"), file("music/one/mid.txt")]);
    assert_eq!(d.next_dir(), Some("music/one/two".to_string()));
    d.on_listing(&vec![file("music/one/two/deep.MP3")]);
    assert!(d.is_done());
    assert_eq!(d.into_files(), vec!["music/top.mp3", "music/one/two/deep.MP3"]);
}

#[test]
fn recursive_discovery_lists_subdirectories_in_order() {
    let mut d = start_dir("r", true);
    d.on_listing(&vec![dir("r/b"), dir("r/a")]);
    assert_eq!(d.next_dir(), Some("r/a".to_string()));
    d.on_listing(&vec![file("r/a/x.mp3")]);
    assert_eq!(d.next_dir(), Some("r/b".to_string()));
    d.on_listing(&vec![file("r/b/y.mp3")]);
    assert_eq!(d.into_files(), vec!["r/a/x.mp3", "r/b/y.mp3"]);
}

#[test]
fn listing_order_does_not_change_result() {
    let mut d1 = start_dir("m", true);
    let mut d2 = start_dir("m", true);
    d1.on_listing(&vec![file("m/z.mp3"), dir("m/s"), file("m/a.mp3"), dir("m/r")]);
    d2.on_listing(&vec![dir("m/r"), file("m/a.mp3"), dir("m/s"), file("m/z.mp3")]);
    assert_eq!(d1.next_dir(), d2.next_dir());
    d1.on_listing(&vec![file("m/r/2.mp3"), file("m/r/1.mp3")]);
    d2.on_listing(&vec![file("m/r/1.mp3"), file("m/r/2.mp3")]);
    d1.on_listing(&vec![]);
    d2.on_listing(&vec![]);
    assert!(d1.is_done() && d2.is_done());
    let f1 = d1.into_files();
    let f2 = d2.into_files();
    assert_eq!(f1, f2);
    assert_eq!(f1, vec!["m/a.mp3", "m/z.mp3", "m/r/1.mp3", "m/r/2.mp3"]);
}

#[test]
fn missing_root_is_not_found() {
    let r = Discovery::start("no/such/path".to_string(), EntryKind::Other, false, RootFilePolicy::FilterByExtension);
    match r {
        Err(DiscoveryError::NotFound(p)) => assert_eq!(p, "no/such/path"),
        _ => panic!("a missing root is reported as not found"),
    }
}

#[test]
fn unreadable_root_directory_fails() {
    let mut d = start_dir("locked", true);
    match d.on_listing_failed() {
        Err(DiscoveryError::Io(p)) => assert_eq!(p, "locked"),
        _ => panic!("an unreadable root directory is an error"),
    }
}

#[test]
fn unreadable_subdirectory_is_skipped() {
    let mut d = start_dir("m", true);
    d.on_listing(&vec![dir("m/locked"), dir("m/open"), file("m/a.mp3")]);
    assert_eq!(d.next_dir(), Some("m/locked".to_string()));
    assert!(d.on_listing_failed().is_ok());
    assert_eq!(d.next_dir(), Some("m/open".to_string()));
    d.on_listing(&vec![file("m/open/b.mp3")]);
    assert!(d.is_done());
    assert_eq!(d.into_files(), vec!["m/a.mp3", "m/open/b.mp3"]);
}

#[test]
fn empty_directory_finds_nothing() {
    let mut d = start_dir("empty", false);
    d.on_listing(&vec![file("empty/readme.txt")]);
    assert!(d.into_files().is_empty());
}

#[test]
fn root_file_filtered_by_extension() {
    let keep = Discovery::start("song.MP3".to_string(), EntryKind::File, false, RootFilePolicy::FilterByExtension);
    let drop = Discovery::start("song.wav".to_string(), EntryKind::File, true, RootFilePolicy::FilterByExtension);
    match (keep, drop) {
        (Ok(k), Ok(d)) => {
            assert!(k.is_done() && d.is_done());
            assert_eq!(k.into_files(), vec!["song.MP3"]);
            assert!(d.into_files().is_empty());
        }
        _ => panic!("a file root starts a discovery"),
    }
}

#[test]
fn root_file_accepted_whatever_its_extension() {
    match Discovery::start("song.wav".to_string(), EntryKind::File, false, RootFilePolicy::AcceptAny) {
        Ok(d) => {
            assert!(d.is_done());
            assert_eq!(d.into_files(), vec!["song.wav"]);
        }
        Err(_) => panic!("a file root starts a discovery"),
    }
}
