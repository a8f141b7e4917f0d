//! Plain records the rest of the application exchanges: reader and
//! appearance settings, catalogue sort parameters, and account and tracker
//! records.
use vstd::prelude::*;

verus! {

/// The colour scheme of the interface.
#[derive(Clone, Copy, Debug, PartialEq, Eq, Structural)]
pub enum Theme {
    Light,
    Dark,
    Auto,
}

pub open spec fn theme_class(t: Theme) -> Seq<char> {
    match t {
        Theme::Light => "light"@,
        Theme::Dark => "dark"@,
        Theme::Auto => ""@,
    }
}

impl Theme {
    /// The class name of the theme: empty for the automatic one.
    pub fn to_string(&self) -> (r: String)
        ensures
            r@ == theme_class(*self),
    {
        match self {
            Theme::Light => "light".to_owned(),
            Theme::Dark => "dark".to_owned(),
            Theme::Auto => "".to_owned(),
        }
    }
}

impl Default for Theme {
    fn default() -> (r: Theme)
        ensures
            r == Theme::Auto,
    {
        Theme::Auto
    }
}

#[derive(Clone, Copy, Debug, PartialEq, Eq, Structural)]
pub enum ReadingDirection {
    LeftToRight,
    RightToLeft,
}

#[derive(Clone, Copy, Debug, PartialEq, Eq, Structural)]
pub enum PageRendering {
    SinglePage,
    DoublePage,
    LongStrip,
}

#[derive(Clone, Copy, Debug, PartialEq, Eq, Structural)]
pub enum BackgroundColor {
    Black,
    White,
}

/// How the reader shows pages.
#[derive(Clone, Copy, Debug, PartialEq, Eq, Structural)]
pub struct SettingParams {
    pub page_rendering: PageRendering,
    pub background_color: BackgroundColor,
    pub reading_direction: ReadingDirection,
    pub dark_mode: bool,
}

impl Default for SettingParams {
    /// Single pages on black, left to right, light mode.
    fn default() -> (r: SettingParams)
        ensures
            r == (SettingParams {
                page_rendering: PageRendering::SinglePage,
                background_color: BackgroundColor::Black,
                reading_direction: ReadingDirection::LeftToRight,
                dark_mode: false,
            }),
    {
        SettingParams {
            page_rendering: PageRendering::SinglePage,
            background_color: BackgroundColor::Black,
            reading_direction: ReadingDirection::LeftToRight,
            dark_mode: false,
        }
    }
}

/// Sort key for listing a provider's catalogue.
#[derive(Clone, Copy, Debug, PartialEq, Eq, Structural)]
pub enum SortByParam {
    LastUpdated,
    Title,
    Comment,
    Views,
}

/// Sort order for listing a provider's catalogue.
#[derive(Clone, Copy, Debug, PartialEq, Eq, Structural)]
pub enum SortOrderParam {
    Asc,
    Desc,
}

/// Login credentials.
#[derive(Clone, Debug)]
pub struct User {
    pub username: String,
    pub password: String,
}

/// What a signed token claims.
#[derive(Clone, Debug, Default)]
pub struct Claims {
    pub sub: String,
    pub company: String,
    pub exp: usize,
}

/// The answer to a login.
#[derive(Clone, Debug)]
pub struct UserResponse {
    pub claim: Option<Claims>,
    pub token: Option<String>,
    pub status: String,
}

/// A started authorization with an external tracker.
pub struct Session {
    pub authorize_url: String,
    pub csrf_state: String,
    pub pkce_code_verifier: Option<String>,
}

/// A title as an external tracker lists it.
#[derive(Default)]
pub struct TrackerManga {
    pub tracker: String,
    pub tracker_manga_id: String,
    pub title: String,
    pub synopsis: String,
    pub cover_url: String,
    pub status: String,
}

} // verus!
