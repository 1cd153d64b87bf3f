use window_restore::codec::decode_settings;
use window_restore::codec::encode_settings;
use window_restore::settings::MonitorSelection;
use window_restore::settings::WindowMode;
use window_restore::settings::WindowPosition;
use window_restore::settings::WindowResolution;
use window_restore::settings::WindowSettings;

fn settings(mode: WindowMode, position: WindowPosition, width: u32, height: u32) -> WindowSettings {
    WindowSettings {
        mode,
        position,
        resolution: WindowResolution { width, height },
    }
}

fn encoded_text(s: &WindowSettings) -> String {
    String::from_utf8(encode_settings(s)).unwrap()
}

#[test]
fn encodes_default_configuration() {
    let s = WindowSettings::default();
    assert_eq!(
        encoded_text(&s),
        "{\"mode\":\"windowed\",\"position\":\"automatic\",\"resolution\":[1280,720]}"
    );
}

#[test]
fn encodes_fixed_coordinates() {
    let s = settings(
        WindowMode::Fullscreen,
        WindowPosition::At(-5, 30),
        800,
        600,
    );
    assert_eq!(
        encoded_text(&s),
        "{\"mode\":\"fullscreen\",\"position\":{\"at\":[-5,30]},\"resolution\":[800,600]}"
    );
}

#[test]
fn encodes_centered_positions() {
    let s = settings(
        WindowMode::BorderlessFullscreen,
        WindowPosition::Centered(MonitorSelection::Primary),
        1,
        0,
    );
    assert_eq!(
        encoded_text(&s),
        "{\"mode\":\"borderless_fullscreen\",\"position\":{\"centered\":\"primary\"},\"resolution\":[1,0]}"
    );
    let s = settings(
        WindowMode::SizedFullscreen,
        WindowPosition::Centered(MonitorSelection::Index(7)),
        1920,
        1080,
    );
    assert_eq!(
        encoded_text(&s),
        "{\"mode\":\"sized_fullscreen\",\"position\":{\"centered\":{\"index\":7}},\"resolution\":[1920,1080]}"
    );
    let s = settings(
        WindowMode::Windowed,
        WindowPosition::Centered(MonitorSelection::Current),
        640,
        480,
    );
    assert_eq!(
        encoded_text(&s),
        "{\"mode\":\"windowed\",\"position\":{\"centered\":\"current\"},\"resolution\":[640,480]}"
    );
}

#[test]
fn decodes_a_written_document() {
    let text = "{\"mode\":\"sized_fullscreen\",\"position\":{\"centered\":{\"index\":12}},\"resolution\":[2560,1440]}";
    let got = decode_settings(text.as_bytes());
    assert_eq!(
        got,
        Some(settings(
            WindowMode::SizedFullscreen,
            WindowPosition::Centered(MonitorSelection::Index(12)),
            2560,
            1440,
        ))
    );
}

#[test]
fn round_trips_every_mode_and_position() {
    let modes = [
        WindowMode::Windowed,
        WindowMode::BorderlessFullscreen,
        WindowMode::SizedFullscreen,
        WindowMode::Fullscreen,
    ];
    let positions = [
        WindowPosition::Automatic,
        WindowPosition::Centered(MonitorSelection::Current),
        WindowPosition::Centered(MonitorSelection::Primary),
        WindowPosition::Centered(MonitorSelection::Index(0)),
        WindowPosition::Centered(MonitorSelection::Index(4294967295)),
        WindowPosition::At(0, 0),
        WindowPosition::At(-1, 1),
        WindowPosition::At(2147483647, -2147483648),
        WindowPosition::At(-10, 2147483647),
    ];
    for &mode in modes.iter() {
        for &position in positions.iter() {
            let s = settings(mode, position, 4294967295, 1);
            assert_eq!(decode_settings(&encode_settings(&s)), Some(s));
        }
    }
}

#[test]
fn rejects_what_is_not_canonical() {
    let bad: [&str; 12] = [
        "",
        "{}",
        "{\"mode\":\"windowed\",\"position\":\"automatic\",\"resolution\":[1280,720]} ",
        "{\"mode\":\"windowed\",\"position\":\"automatic\",\"resolution\":[1280,720]}x",
        "{\"mode\": \"windowed\",\"position\":\"automatic\",\"resolution\":[1280,720]}",
        "{\"mode\":\"Windowed\",\"position\":\"automatic\",\"resolution\":[1280,720]}",
        "{\"mode\":\"windowed\",\"position\":\"automatic\",\"resolution\":[01280,720]}",
        "{\"mode\":\"windowed\",\"position\":\"automatic\",\"resolution\":[1280,720.0]}",
        "{\"mode\":\"windowed\",\"position\":\"automatic\",\"resolution\":[4294967296,720]}",
        "{\"mode\":\"windowed\",\"position\":{\"at\":[-0,5]},\"resolution\":[1280,720]}",
        "{\"mode\":\"windowed\",\"position\":{\"at\":[5,2147483648]},\"resolution\":[1280,720]}",
        "{\"position\":\"automatic\",\"mode\":\"windowed\",\"resolution\":[1280,720]}",
    ];
    for text in bad.iter() {
        assert_eq!(decode_settings(text.as_bytes()), None, "accepted: {}", text);
    }
}

#[test]
fn accepts_the_extreme_coordinates() {
    let text = "{\"mode\":\"windowed\",\"position\":{\"at\":[-2147483648,2147483647]},\"resolution\":[1,1]}";
    let got = decode_settings(text.as_bytes());
    assert_eq!(
        got,
        Some(settings(
            WindowMode::Windowed,
            WindowPosition::At(-2147483648, 2147483647),
            1,
            1,
        ))
    );
}
