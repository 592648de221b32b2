//! User configuration.
use vstd::prelude::*;
use vstd::string::StringSliceAdditionalSpecFns;
use vstd::utf8::*;

verus! {

/// Saved values of the lobby's text boxes.
#[derive(Clone, Debug)]
pub struct LobbyConfig {
    pub nickname: String,
    pub matchmaker: String,
}

/// The color scheme variant.
#[derive(Clone, Copy, Debug, PartialEq, Eq, Structural)]
pub enum ColorScheme {
    Light,
    Dark,
}

/// The position of the toolbar.
#[derive(Clone, Copy, Debug, PartialEq, Eq, Structural)]
pub enum ToolbarPosition {
    /// Vertical on the left side of the screen.
    Left,
    /// Horizontal on the top of the screen.
    Top,
    /// Vertical on the right side of the screen.
    Right,
    /// Horizontal on the bottom of the screen.
    Bottom,
}

/// UI-related configuration options.
#[derive(Clone, Copy, Debug, PartialEq, Eq, Structural)]
pub struct UiConfig {
    pub color_scheme: ColorScheme,
    pub toolbar_position: ToolbarPosition,
}

/// The user's configuration.
#[derive(Clone, Debug)]
pub struct UserConfig {
    pub lobby: LobbyConfig,
    pub ui: UiConfig,
}

/// The lowercase form of a string.
pub uninterp spec fn lowercase_of(s: Seq<char>) -> Seq<char>;

/// Relies on `str::to_lowercase`: the result depends on the characters alone.
#[verifier::external_body]
fn lowercase(s: &str) -> (r: String)
    ensures
        r@ == lowercase_of(s@),
{
    s.to_lowercase()
}

/// Whether two strings hold the same characters, compared byte by byte.
fn same_text(a: &str, b: &str) -> (r: bool)
    ensures
        r == (a@ == b@),
{
    let x = a.as_bytes();
    let y = b.as_bytes();
    proof {
        encode_utf8_decode_utf8(a@);
        encode_utf8_decode_utf8(b@);
    }
    assert(x@ == y@ <==> a@ == b@);
    if x.len() != y.len() {
        return false;
    }
    let mut i: usize = 0;
    while i < x.len()
        invariant
            i <= x@.len(),
            x@.len() == y@.len(),
            x@ == y@ <==> a@ == b@,
            forall|j: int| 0 <= j < i ==> x@[j] == y@[j],
        decreases x@.len() - i,
    {
        if x[i] != y[i] {
            assert(x@[i as int] != y@[i as int]);
            assert(x@ != y@);
            return false;
        }
        i += 1;
    }
    assert(x@ =~= y@);
    true
}

/// The color scheme named by a lowercase name.
pub open spec fn scheme_named(name: Seq<char>) -> Option<ColorScheme> {
    if name == "light"@ {
        Some(ColorScheme::Light)
    } else if name == "dark"@ {
        Some(ColorScheme::Dark)
    } else {
        None
    }
}

impl ColorScheme {
    /// The color scheme named by `name`, which is already lowercase: `light` or `dark`.
    pub fn from_lowercase_name(name: &str) -> (r: Result<ColorScheme, ()>)
        ensures
            r == match scheme_named(name@) {
                Some(c) => Ok::<ColorScheme, ()>(c),
                None => Err(()),
            },
    {
        proof {
            reveal_strlit("light");
            reveal_strlit("dark");
        }
        if same_text(name, "light") {
            Ok(ColorScheme::Light)
        } else if same_text(name, "dark") {
            Ok(ColorScheme::Dark)
        } else {
            Err(())
        }
    }

    /// The color scheme named by `name`, in any case.
    pub fn from_name(name: &str) -> (r: Result<ColorScheme, ()>)
        ensures
            r == match scheme_named(lowercase_of(name@)) {
                Some(c) => Ok::<ColorScheme, ()>(c),
                None => Err(()),
            },
    {
        let lower = lowercase(name);
        Self::from_lowercase_name(lower.as_str())
    }

    /// The variant's name: `Light` or `Dark`.
    pub fn to_string(&self) -> (r: String)
        ensures
            r@ == match self {
                ColorScheme::Light => "Light"@,
                ColorScheme::Dark => "Dark"@,
            },
    {
        match self {
            ColorScheme::Light => "Light".to_owned(),
            ColorScheme::Dark => "Dark".to_owned(),
        }
    }
}

impl std::str::FromStr for ColorScheme {
    type Err = ();

    fn from_str(s: &str) -> Result<ColorScheme, ()> {
        ColorScheme::from_name(s)
    }
}

impl Default for ToolbarPosition {
    /// The toolbar sits on the left-hand side of the screen.
    fn default() -> (r: ToolbarPosition)
        ensures
            r == ToolbarPosition::Left,
    {
        ToolbarPosition::Left
    }
}

impl Default for UserConfig {
    /// The nickname `Anon`, the matchmaker at `localhost`, the light color scheme and the
    /// toolbar on the left.
    fn default() -> (r: UserConfig)
        ensures
            r.lobby.nickname@ == "Anon"@,
            r.lobby.matchmaker@ == "localhost"@,
            r.ui.color_scheme == ColorScheme::Light,
            r.ui.toolbar_position == ToolbarPosition::Left,
    {
        UserConfig {
            lobby: LobbyConfig { nickname: "Anon".to_owned(), matchmaker: "localhost".to_owned() },
            ui: UiConfig {
                color_scheme: ColorScheme::Light,
                toolbar_position: ToolbarPosition::Left,
            },
        }
    }
}

} // verus!
