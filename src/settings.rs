//! The application's settings record and its defaults. Reading and writing
//! it is left to the host application.

use vstd::prelude::*;

verus! {

/// User settings: appearance, trimming behaviour, saved patterns and window
/// geometry. Every field may be absent.
#[derive(Clone, Debug)]
pub struct SaveAppSettings {
    pub is_dark_mode: Option<bool>,
    pub language: Option<String>,
    pub trim_line: Option<bool>,
    pub trim_parts: Option<bool>,
    pub font_size: Option<String>,
    pub show_line_numbers: Option<bool>,
    pub show_empty_lines: Option<bool>,
    pub saved_patterns: Option<Vec<String>>,
    pub window_position: Option<(i32, i32)>,
    pub window_size: Option<(u32, u32)>,
}

impl Default for SaveAppSettings {
    /// Dark mode, English, no trimming, small font, no line numbers, hidden
    /// empty lines, no saved patterns, a 1200 by 800 window at (100, 100).
    fn default() -> (r: Self)
        ensures
            r.is_dark_mode == Some(true),
            r.language matches Some(s) && s@ == "en"@,
            r.trim_line == Some(false),
            r.trim_parts == Some(false),
            r.font_size matches Some(s) && s@ == "text-sm"@,
            r.show_line_numbers == Some(false),
            r.show_empty_lines == Some(false),
            r.saved_patterns matches Some(v) && v@.len() == 0,
            r.window_position == Some((100i32, 100i32)),
            r.window_size == Some((1200u32, 800u32)),
    {
        SaveAppSettings {
            is_dark_mode: Some(true),
            language: Some("en".to_string()),
            trim_line: Some(false),
            trim_parts: Some(false),
            font_size: Some("text-sm".to_string()),
            show_line_numbers: Some(false),
            show_empty_lines: Some(false),
            saved_patterns: Some(Vec::new()),
            window_position: Some((100, 100)),
            window_size: Some((1200, 800)),
        }
    }
}

/// std's mutual-exclusion lock, carried opaquely.
#[verifier::external_type_specification]
#[verifier::external_body]
#[verifier::reject_recursive_types(T)]
pub struct ExMutex<T: ?Sized>(std::sync::Mutex<T>);

/// Settings shared between the host's threads.
pub struct SettingsState(pub std::sync::Arc<std::sync::Mutex<SaveAppSettings>>);

} // verus!
