use window_restore::settings::MonitorSelection;
use window_restore::settings::WindowMode;
use window_restore::settings::WindowPosition;
use window_restore::settings::WindowResolution;
use window_restore::settings::WindowSettings;
use window_restore::watch::restore_settings;
use window_restore::watch::WindowWatcher;

fn settings(mode: WindowMode, position: WindowPosition, width: u32, height: u32) -> WindowSettings {
    WindowSettings {
        mode,
        position,
        resolution: WindowResolution { width, height },
    }
}

#[test]
fn a_quiet_window_is_not_written() {
    let mut watcher = WindowWatcher::new();
    let current = settings(WindowMode::Windowed, WindowPosition::Automatic, 1280, 720);
    assert_eq!(watcher.observe(&current, false, false), None);
    assert_eq!(watcher.observe(&current, false, false), None);
}

#[test]
fn a_mode_change_is_written_once() {
    let mut watcher = WindowWatcher::new();
    let current = settings(WindowMode::Fullscreen, WindowPosition::Automatic, 1280, 720);
    let doc = watcher.observe(&current, false, false).unwrap();
    assert_eq!(
        String::from_utf8(doc).unwrap(),
        "{\"mode\":\"fullscreen\",\"position\":\"automatic\",\"resolution\":[1280,720]}"
    );
    assert_eq!(watcher.observe(&current, false, false), None);
}

#[test]
fn moves_and_resizes_are_always_written() {
    let mut watcher = WindowWatcher::new();
    let current = settings(
        WindowMode::Windowed,
        WindowPosition::At(10, 20),
        800,
        600,
    );
    let moved = watcher.observe(&current, true, false).unwrap();
    assert_eq!(
        String::from_utf8(moved).unwrap(),
        "{\"mode\":\"windowed\",\"position\":{\"at\":[10,20]},\"resolution\":[800,600]}"
    );
    let resized = watcher.observe(&current, false, true);
    assert!(resized.is_some());
}

#[test]
fn restore_falls_back_to_the_default() {
    let default = settings(WindowMode::Windowed, WindowPosition::Automatic, 1280, 720);
    assert_eq!(restore_settings(None), default);
    assert_eq!(restore_settings(Some(b"not json")), default);
    assert_eq!(restore_settings(Some(b"")), default);
}

#[test]
fn restore_reads_back_what_was_observed() {
    let mut watcher = WindowWatcher::new();
    let current = settings(
        WindowMode::BorderlessFullscreen,
        WindowPosition::Centered(MonitorSelection::Index(1)),
        1366,
        768,
    );
    let doc = watcher.observe(&current, false, true).unwrap();
    assert_eq!(restore_settings(Some(&doc)), current);
}
