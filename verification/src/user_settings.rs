//! The configuration a recompute reads: structural-format pattern and
//! colors, token highlight list, filter and search terms with their flags.

use vstd::prelude::*;

use crate::style::Color;

verus! {

/// The structural-format configuration: a whole-line pattern and, per
/// capture group, a background color, a text color, and whether to keep
/// the original text color instead.
#[derive(Clone)]
pub struct LogFormat {
    pub pattern: String,
    pub pattern_coloring: Vec<Color>,
    pub pattern_coloring_text: Vec<Color>,
    pub pattern_coloring_text_use_original: Vec<bool>,
}

/// Everything the pipeline is configured by, owned by the caller and read
/// only during a recompute.
#[derive(Clone)]
pub struct UserSettings {
    pub wrap_text: bool,
    pub autoscroll: bool,
    pub search_term: String,
    pub search_match_case: bool,
    pub search_whole_word: bool,
    pub filter_term: String,
    pub filter_match_case: bool,
    pub filter_whole_word: bool,
    pub filter_negative: bool,
    pub filter_extended: bool,
    pub file_path: String,
    pub log_format: LogFormat,
    pub token_colors: Vec<(String, Color)>,
}

/// The color the default settings give to token slot `i`.
pub open spec fn default_token_color(i: int) -> Color {
    Color { r: ((i * 12) % 256) as u8, g: ((i * 34) % 256) as u8, b: ((i * 56) % 256) as u8, a: 255 }
}

impl Default for LogFormat {
    fn default() -> (f: LogFormat)
        ensures
            f.pattern@.len() == 0,
            f.pattern_coloring@.len() == 0,
            f.pattern_coloring_text@.len() == 0,
            f.pattern_coloring_text_use_original@.len() == 0,
    {
        LogFormat {
            pattern: String::new(),
            pattern_coloring: Vec::new(),
            pattern_coloring_text: Vec::new(),
            pattern_coloring_text_use_original: Vec::new(),
        }
    }
}

impl Default for UserSettings {
    /// Everything off and empty, except 25 token slots pre-filled with
    /// empty token text and a generated color each.
    fn default() -> (s: UserSettings)
        ensures
            s.wrap_text == false,
            s.autoscroll == false,
            s.search_term@.len() == 0,
            s.search_match_case == false,
            s.search_whole_word == false,
            s.filter_term@.len() == 0,
            s.filter_match_case == false,
            s.filter_whole_word == false,
            s.filter_negative == false,
            s.filter_extended == false,
            s.file_path@.len() == 0,
            s.log_format.pattern@.len() == 0,
            s.log_format.pattern_coloring@.len() == 0,
            s.log_format.pattern_coloring_text@.len() == 0,
            s.log_format.pattern_coloring_text_use_original@.len() == 0,
            s.token_colors@.len() == 25,
            forall|i: int|
                0 <= i < 25 ==> (#[trigger] s.token_colors@[i]).0@.len() == 0
                    && s.token_colors@[i].1 == default_token_color(i),
    {
        let mut token_colors: Vec<(String, Color)> = Vec::new();
        let mut i: usize = 0;
        while i < 25
            invariant
                i <= 25,
                token_colors@.len() == i,
                forall|j: int|
                    0 <= j < i ==> (#[trigger] token_colors@[j]).0@.len() == 0
                        && token_colors@[j].1 == default_token_color(j),
            decreases 25 - i,
        {
            let color = Color {
                r: ((i * 12) % 256) as u8,
                g: ((i * 34) % 256) as u8,
                b: ((i * 56) % 256) as u8,
                a: 255,
            };
            token_colors.push((String::new(), color));
            i = i + 1;
        }
        UserSettings {
            wrap_text: false,
            autoscroll: false,
            search_term: String::new(),
            search_match_case: false,
            search_whole_word: false,
            filter_term: String::new(),
            filter_match_case: false,
            filter_whole_word: false,
            filter_negative: false,
            filter_extended: false,
            file_path: String::new(),
            log_format: LogFormat {
                pattern: String::new(),
                pattern_coloring: Vec::new(),
                pattern_coloring_text: Vec::new(),
                pattern_coloring_text_use_original: Vec::new(),
            },
            token_colors,
        }
    }
}

} // verus!
