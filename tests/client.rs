use netcanv::config::{ColorScheme, ToolbarPosition, UserConfig};
use netcanv::image::Image;
use netcanv::lobby::{check_join, validate_nickname};
use netcanv::selection::{EditableText, Selection};
use netcanv::socket::{check_version, ConnectionToken, TokenSource, VersionError, VersionMessage};

#[test]
fn selection_bounds() {
    let s = Selection { cursor: 7, anchor: 3 };
    assert_eq!(s.start(), 3);
    assert_eq!(s.end(), 7);
    assert_eq!(s.normalize(), 3..7);
    assert_eq!(s.len(), 4);
}

#[test]
fn selection_moves() {
    let mut s = Selection { cursor: 2, anchor: 2 };
    s.move_left(true);
    assert_eq!((s.cursor, s.anchor), (1, 2));
    s.move_left(false);
    assert_eq!((s.cursor, s.anchor), (0, 0));
    s.move_left(false);
    assert_eq!((s.cursor, s.anchor), (0, 0));
    s.move_right(true);
    s.move_right(true);
    assert_eq!((s.cursor, s.anchor), (2, 0));
    assert_eq!(s.len(), 2);
    s.move_right(false);
    assert_eq!((s.cursor, s.anchor), (3, 3));
    s.move_to(10);
    assert_eq!((s.cursor, s.anchor), (10, 10));
    assert_eq!(s.len(), 0);
}

#[test]
fn color_scheme_names() {
    assert_eq!("light".parse::<ColorScheme>(), Ok(ColorScheme::Light));
    assert_eq!("DARK".parse::<ColorScheme>(), Ok(ColorScheme::Dark));
    assert_eq!("Dark".parse::<ColorScheme>(), Ok(ColorScheme::Dark));
    assert_eq!("blue".parse::<ColorScheme>(), Err(()));
    assert_eq!(ColorScheme::from_lowercase_name("DARK"), Err(()));
    assert_eq!(ColorScheme::Light.to_string(), "Light");
    assert_eq!(ColorScheme::Dark.to_string(), "Dark");
}

#[test]
fn default_config() {
    let c = UserConfig::default();
    assert_eq!(c.lobby.nickname, "Anon");
    assert_eq!(c.lobby.matchmaker, "localhost");
    assert_eq!(c.ui.color_scheme, ColorScheme::Light);
    assert_eq!(c.ui.toolbar_position, ToolbarPosition::Left);
    assert_eq!(ToolbarPosition::default(), ToolbarPosition::Left);
}

#[test]
fn tokens_increase() {
    let mut source = TokenSource::new();
    assert_eq!(source.next_token(), Some(ConnectionToken(0)));
    assert_eq!(source.next_token(), Some(ConnectionToken(1)));
    assert_eq!(source.next_token(), Some(ConnectionToken(2)));
}

#[test]
fn version_handshake() {
    assert_eq!(check_version(&VersionMessage::Binary(vec![3, 0, 0, 0]), 3), Ok(3));
    assert_eq!(
        check_version(&VersionMessage::Binary(vec![2, 0, 0, 0]), 3),
        Err(VersionError::RelayIsTooOld)
    );
    assert_eq!(
        check_version(&VersionMessage::Binary(vec![0, 1, 0, 0]), 3),
        Err(VersionError::RelayIsTooNew)
    );
    assert_eq!(
        check_version(&VersionMessage::Binary(vec![3, 0, 0]), 3),
        Err(VersionError::InvalidVersionPacket)
    );
    assert_eq!(check_version(&VersionMessage::NotBinary, 3), Err(VersionError::InvalidVersionPacket));
    assert_eq!(check_version(&VersionMessage::Missing, 3), Err(VersionError::NoVersionPacket));
}

#[test]
fn image_keeps_pixels() {
    let pixels = [1u8, 2, 3, 4, 5, 6, 7, 8];
    let image = Image::from_rgba(2, 1, &pixels);
    assert_eq!(image.data(), &pixels.to_vec());
}

#[test]
fn nickname_rules() {
    assert_eq!(validate_nickname("Anon"), Ok(()));
    assert_eq!(validate_nickname(""), Err("Nickname must not be empty".to_string()));
    assert_eq!(validate_nickname("abcdefghijklmnop"), Ok(()));
    assert_eq!(
        validate_nickname("abcdefghijklmnopq"),
        Err("The maximum length of a nickname is 16 characters".to_string())
    );
    // nine two-byte characters are eighteen bytes
    assert!(validate_nickname("ééééééééé").is_err());
}

#[test]
fn join_request_rules() {
    assert_eq!(check_join("Anon", "1234"), Ok(1234));
    assert_eq!(check_join("Anon", "999999"), Ok(999999));
    assert_eq!(check_join("Anon", "+0042"), Ok(42));
    assert_eq!(
        check_join("Anon", "123"),
        Err("Room ID must be a number with 4–6 digits".to_string())
    );
    assert_eq!(
        check_join("Anon", "1234567"),
        Err("Room ID must be a number with 4–6 digits".to_string())
    );
    assert_eq!(check_join("Anon", "12a4"), Err("Room ID must be an integer".to_string()));
    assert_eq!(check_join("Anon", "-123"), Err("Room ID must be an integer".to_string()));
    assert_eq!(check_join("", "1234"), Err("Nickname must not be empty".to_string()));
}

fn chars(s: &str) -> Vec<char> {
    s.chars().collect()
}

fn sel(cursor: usize, anchor: usize) -> Selection {
    Selection { cursor, anchor }
}

#[test]
fn typing_and_erasing() {
    let mut t = EditableText::new(chars("helo"));
    assert_eq!(t.current_selection(), sel(4, 4));
    t.backspace();
    assert_eq!(t.chars(), &chars("hel"));
    assert_eq!(t.current_selection(), sel(3, 3));
    t.append('l');
    t.append('o');
    assert_eq!(t.chars(), &chars("hello"));
    assert_eq!(t.current_selection(), sel(5, 5));
    // delete at the end does nothing
    t.delete();
    assert_eq!(t.chars(), &chars("hello"));
    t.set_text(chars("ab"));
    assert_eq!(t.current_selection(), sel(2, 2));
    t.backspace();
    t.backspace();
    t.backspace();
    assert_eq!(t.chars(), &chars(""));
    assert_eq!(t.current_selection(), sel(0, 0));
}

#[test]
fn editing_replaces_selection() {
    let mut t = EditableText::new(chars("hello world"));
    for _ in 0..5 {
        t.key_left(true);
    }
    assert_eq!(t.current_selection(), sel(6, 11));
    assert_eq!(t.selection_text(), chars("world"));
    t.append('X');
    assert_eq!(t.chars(), &chars("hello X"));
    assert_eq!(t.current_selection(), sel(7, 7));
    t.key_home();
    t.key_right(true);
    t.key_right(true);
    assert_eq!(t.selection_text(), chars("he"));
    t.delete();
    assert_eq!(t.chars(), &chars("llo X"));
    assert_eq!(t.current_selection(), sel(0, 0));
    t.key_end();
    t.key_left(true);
    t.backspace();
    assert_eq!(t.chars(), &chars("llo "));
    assert_eq!(t.current_selection(), sel(4, 4));
    // right stops at the end of the text
    t.key_right(false);
    assert_eq!(t.current_selection(), sel(4, 4));
    t.key_left(false);
    t.delete();
    assert_eq!(t.chars(), &chars("llo"));
}
