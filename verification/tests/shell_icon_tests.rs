use base64::Engine;
use std::io::Read;
use wsearch::icon::{icon_cache_key, icon_cache_key_for, icon_data_uri};
use wsearch::shell::{explorer_select_arg, shell_execute_failed, strip_verbatim_prefix};
use wsearch::watch::{ready_to_apply, shortcut_action, ChangeKind, PendingChanges, WatchAction, WatchEvent, Watcher, WindowAction};

fn be32(b: &[u8]) -> u32 {
    u32::from_be_bytes([b[0], b[1], b[2], b[3]])
}

#[test]
fn icon_uri_holds_a_png_of_the_bitmap() {
    // Two pixels, blue then red, in BGRA.
    let bgra = vec![255u8, 0, 0, 255, 0, 0, 255, 255];
    let uri = icon_data_uri(&bgra, 2, 1).unwrap();
    let prefix = "data:image/png;base64,";
    assert!(uri.starts_with(prefix));
    let png = base64::engine::general_purpose::STANDARD.decode(&uri[prefix.len()..]).unwrap();
    assert_eq!(uri.len(), 22 + 4 * ((png.len() + 2) / 3));
    assert_eq!(&png[..8], &[137u8, 80, 78, 71, 13, 10, 26, 10]);
    // IHDR: 2 by 1, 8-bit RGB.
    assert_eq!(be32(&png[8..12]), 13);
    assert_eq!(&png[12..16], b"IHDR");
    assert_eq!(be32(&png[16..20]), 2);
    assert_eq!(be32(&png[20..24]), 1);
    assert_eq!(&png[24..29], &[8u8, 2, 0, 0, 0]);
    let mut crc = flate2::Crc::new();
    crc.update(&png[12..29]);
    assert_eq!(be32(&png[29..33]), crc.sum());
    // IDAT: the zlib stream of one scanline, filter 0, blue then red in RGB.
    let idat_len = be32(&png[33..37]) as usize;
    assert_eq!(&png[37..41], b"IDAT");
    let mut rows = Vec::new();
    flate2::read::ZlibDecoder::new(&png[41..41 + idat_len]).read_to_end(&mut rows).unwrap();
    assert_eq!(rows, vec![0u8, 0, 0, 255, 255, 0, 0]);
    // IEND closes the file.
    let end = 41 + idat_len + 4;
    assert_eq!(&png[end..], &[0u8, 0, 0, 0, b'I', b'E', b'N', b'D', 0xAE, 0x42, 0x60, 0x82]);
}

#[test]
fn icon_uri_length_follows_the_png() {
    let uri = icon_data_uri(&vec![7u8; 4 * 32 * 32], 32, 32).unwrap();
    assert!(uri.starts_with("data:image/png;base64,iVBORw0KGgo"));
    assert_eq!((uri.len() - 22) % 4, 0);
}

#[test]
fn icon_key_per_file_for_programs() {
    assert_eq!(icon_cache_key("C:\\x\\App.EXE"), "file:C:\\x\\App.EXE");
    assert_eq!(icon_cache_key_for("p", Some("Lnk")), "file:p");
    assert_ne!(icon_cache_key("C:/a/app.exe"), icon_cache_key("C:/b/other.exe"));
}

#[test]
fn icon_key_per_extension_otherwise() {
    assert_eq!(icon_cache_key("notes.TXT"), "ext:txt");
    assert_eq!(icon_cache_key("folder"), "ext:_folder_");
    assert_eq!(icon_cache_key_for("x", None), "ext:_folder_");
    assert_eq!(icon_cache_key("C:/a/x.TXT"), icon_cache_key("D:/b/y.txt"));
    assert_eq!(icon_cache_key("D:/b/y.txt"), "ext:txt");
}

#[test]
fn verbatim_prefix_is_stripped() {
    assert_eq!(strip_verbatim_prefix("\\\\?\\C:\\a"), "C:\\a");
    assert_eq!(strip_verbatim_prefix("C:\\a"), "C:\\a");
    assert_eq!(strip_verbatim_prefix("\\\\?"), "\\\\?");
}

#[test]
fn explorer_argument_selects_the_file() {
    assert_eq!(explorer_select_arg("\\\\?\\C:\\a b.txt"), "/select,\"C:\\a b.txt\"");
}

#[test]
fn shell_result_codes() {
    assert!(shell_execute_failed(32));
    assert!(shell_execute_failed(0));
    assert!(!shell_execute_failed(33));
}

#[test]
fn pending_changes_split_by_kind() {
    let mut p = PendingChanges::new();
    p.record_event(ChangeKind::Create, present(&["C:\\a.txt", "C:\\w\\node_modules\\m.js"]));
    p.record_event(ChangeKind::Remove, present(&["C:\\b.txt"]));
    p.record_event(ChangeKind::Other, present(&["C:\\c.txt"]));
    p.record_event(ChangeKind::Modify, present(&["C:\\d.txt"]));
    assert_eq!(p.changes.len(), 3);
    let batch = p.take_batch();
    assert_eq!(batch.removals, vec!["C:\\b.txt".to_string()]);
    assert_eq!(batch.additions, vec!["C:\\a.txt".to_string(), "C:\\d.txt".to_string()]);
    assert!(p.changes.is_empty());
}

#[test]
fn debounce_decision() {
    assert!(!ready_to_apply(0, 1000));
    assert!(!ready_to_apply(2, 499));
    assert!(ready_to_apply(2, 500));
}

#[test]
fn shortcut_toggles_window() {
    assert_eq!(shortcut_action(true, true), WindowAction::Hide);
    assert_eq!(shortcut_action(true, false), WindowAction::ShowAndFocus);
    assert_eq!(shortcut_action(false, true), WindowAction::Nothing);
}

#[test]
fn icon_cache_keeps_only_extracted_icons() {
    let mut cache = wsearch::icon::IconCache::new();
    assert_eq!(cache.lookup("ext:txt"), None);
    let r = cache.remember("ext:txt".to_string(), Ok("data:x".to_string()));
    assert_eq!(r, Ok("data:x".to_string()));
    assert_eq!(cache.lookup("ext:txt"), Some("data:x".to_string()));
    let r = cache.remember("ext:doc".to_string(), Err("Failed to get icon".to_string()));
    assert_eq!(r, Err("Failed to get icon".to_string()));
    assert_eq!(cache.lookup("ext:doc"), None);
}

#[test]
fn watcher_applies_changes_after_a_quiet_half_second() {
    let mut w = Watcher::new(0);
    assert!(matches!(w.step(0, WatchEvent::Notified(ChangeKind::Create, present(&["C:\\a.txt"]))), WatchAction::Wait));
    assert!(matches!(w.step(100, WatchEvent::Tick), WatchAction::Wait));
    // A new change restarts the wait.
    assert!(matches!(w.step(400, WatchEvent::Notified(ChangeKind::Remove, present(&["C:\\b.txt"]))), WatchAction::Wait));
    assert!(matches!(w.step(600, WatchEvent::Tick), WatchAction::Wait));
    match w.step(900, WatchEvent::Tick) {
        WatchAction::Apply(b) => {
            assert_eq!(b.additions, vec!["C:\\a.txt".to_string()]);
            assert_eq!(b.removals, vec!["C:\\b.txt".to_string()]);
        }
        _ => panic!("changes were not applied"),
    }
    assert!(matches!(w.step(2000, WatchEvent::Tick), WatchAction::Wait));
    assert!(matches!(w.step(2000, WatchEvent::Closed), WatchAction::Stop));
}

#[test]
fn watcher_ignored_change_does_not_restart_the_wait() {
    let mut w = Watcher::new(0);
    w.step(0, WatchEvent::Notified(ChangeKind::Modify, present(&["C:\\a.txt"])));
    w.step(450, WatchEvent::Notified(ChangeKind::Modify, present(&["C:\\x\\.git\\index"])));
    assert_eq!(w.last_change_ms, 0);
    assert!(matches!(w.step(500, WatchEvent::Tick), WatchAction::Apply(_)));
}

#[test]
fn watcher_hands_out_pending_changes_when_closed() {
    let mut w = Watcher::new(0);
    w.step(10, WatchEvent::Notified(ChangeKind::Create, present(&["C:\\a.txt"])));
    match w.step(20, WatchEvent::Closed) {
        WatchAction::Finish(b) => assert_eq!(b.additions, vec!["C:\\a.txt".to_string()]),
        _ => panic!("pending changes were lost"),
    }
}

fn present(paths: &[&str]) -> Vec<(String, bool)> {
    paths.iter().map(|p| (p.to_string(), true)).collect()
}

#[test]
fn vanished_path_counts_as_a_removal() {
    // A rename reports the old name as modified; it no longer exists.
    let mut w = Watcher::new(0);
    w.step(0, WatchEvent::Notified(ChangeKind::Modify, vec![("C:\\old.txt".to_string(), false), ("C:\\new.txt".to_string(), true)]));
    match w.step(600, WatchEvent::Tick) {
        WatchAction::Apply(b) => {
            assert_eq!(b.removals, vec!["C:\\old.txt".to_string()]);
            assert_eq!(b.additions, vec!["C:\\new.txt".to_string()]);
        }
        _ => panic!("changes were not applied"),
    }
}
