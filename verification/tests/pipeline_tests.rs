use logalyzer::Color;
use logalyzer::FilterLineHandler;
use logalyzer::LineHandlerType;
use logalyzer::LineVec;
use logalyzer::LogFormatLineHandler;
use logalyzer::OpenedFileMetadata;
use logalyzer::SearchLineHandler;
use logalyzer::Style;
use logalyzer::TokenHilightLineHandler;
use logalyzer::UserSettings;
use logalyzer::VisibleLineOffsets;
use logalyzer::content_metrics;
use logalyzer::line_number_label;
use logalyzer::recalculate_log_job;
use logalyzer::split_lines;

fn joined_text(line: &LineVec) -> String {
    line.iter().map(|(s, _)| s.as_str()).collect::<Vec<_>>().join("")
}

#[test]
fn default_settings_token_slots() {
    let us = UserSettings::default();
    assert_eq!(us.token_colors.len(), 25);
    assert_eq!(us.token_colors[0].1, Color { r: 0, g: 0, b: 0, a: 255 });
    assert_eq!(us.token_colors[1].1, Color { r: 12, g: 34, b: 56, a: 255 });
    assert!(us.token_colors.iter().all(|(t, _)| t.is_empty()));
    assert!(us.filter_term.is_empty());
    assert!(us.search_term.is_empty());
}

#[test]
fn filter_and_terms() {
    let mut us = UserSettings::default();
    us.filter_term = "error && failed".to_string();
    us.filter_extended = true;
    let h = FilterLineHandler::new(&us).unwrap();

    let mut both: LineVec = vec![("job error: step failed".to_string(), Style::default())];
    h.process_line(&mut both);
    assert_eq!(both.len(), 1);

    let mut only_one: LineVec = vec![("job error: step done".to_string(), Style::default())];
    h.process_line(&mut only_one);
    assert!(only_one.is_empty());

    let mut neither: LineVec = vec![("all fine".to_string(), Style::default())];
    h.process_line(&mut neither);
    assert!(neither.is_empty());
}

#[test]
fn filter_or_terms() {
    let mut us = UserSettings::default();
    us.filter_term = "error || warning".to_string();
    us.filter_extended = true;
    let h = FilterLineHandler::new(&us).unwrap();

    let mut first: LineVec = vec![("an error happened".to_string(), Style::default())];
    h.process_line(&mut first);
    assert_eq!(first.len(), 1);

    let mut second: LineVec = vec![("just a warning".to_string(), Style::default())];
    h.process_line(&mut second);
    assert_eq!(second.len(), 1);

    let mut neither: LineVec = vec![("all fine".to_string(), Style::default())];
    h.process_line(&mut neither);
    assert!(neither.is_empty());
}

#[test]
fn filter_negate_inverts_kept_set() {
    let lines = ["an error happened", "all fine", "error again"];
    let mut us = UserSettings::default();
    us.filter_term = "error".to_string();
    let plain = FilterLineHandler::new(&us).unwrap();
    us.filter_negative = true;
    let negated = FilterLineHandler::new(&us).unwrap();

    for text in lines {
        let mut a: LineVec = vec![(text.to_string(), Style::default())];
        let mut b: LineVec = vec![(text.to_string(), Style::default())];
        plain.process_line(&mut a);
        negated.process_line(&mut b);
        assert_eq!(a.is_empty(), !b.is_empty(), "line: {}", text);
    }
}

#[test]
fn filter_extended_trims_sub_terms() {
    let mut us = UserSettings::default();
    us.filter_term = "  error  &&  failed ".to_string();
    us.filter_extended = true;
    let h = FilterLineHandler::new(&us).unwrap();

    let mut line: LineVec = vec![("error failed".to_string(), Style::default())];
    h.process_line(&mut line);
    assert_eq!(line.len(), 1);
}

#[test]
fn filter_whole_word_and_case() {
    let mut us = UserSettings::default();
    us.filter_term = "Log".to_string();
    us.filter_whole_word = true;
    let h = FilterLineHandler::new(&us).unwrap();

    let mut inside_word: LineVec = vec![("catalog entry".to_string(), Style::default())];
    h.process_line(&mut inside_word);
    assert!(inside_word.is_empty());

    let mut word: LineVec = vec![("the log is here".to_string(), Style::default())];
    h.process_line(&mut word);
    assert_eq!(word.len(), 1);
}

#[test]
fn format_group_count_mismatch_leaves_line_unchanged() {
    let mut us = UserSettings::default();
    us.log_format.pattern = r"^(a+)(b+)$".to_string();
    us.log_format.pattern_coloring = vec![
        Color::from_rgb(255, 0, 0),
        Color::from_rgb(0, 255, 0),
        Color::from_rgb(0, 0, 255),
    ];
    us.log_format.pattern_coloring_text = vec![
        Color::from_rgb(0, 0, 0),
        Color::from_rgb(0, 0, 0),
        Color::from_rgb(0, 0, 0),
    ];
    us.log_format.pattern_coloring_text_use_original = vec![false, false, false];
    let h = LogFormatLineHandler::new(&us).unwrap();

    let mut line: LineVec = vec![("aabb".to_string(), Style::default())];
    let r = h.process_line(&mut line);
    assert!(r.is_ok());
    assert_eq!(line.len(), 1);
    assert_eq!(line[0], ("aabb".to_string(), Style::default()));
}

#[test]
fn format_applies_group_colors() {
    let mut us = UserSettings::default();
    us.log_format.pattern = r"^(a+)(b+)$".to_string();
    us.log_format.pattern_coloring = vec![Color::from_rgb(255, 0, 0), Color::from_rgb(0, 255, 0)];
    us.log_format.pattern_coloring_text =
        vec![Color::from_rgb(10, 10, 10), Color::from_rgb(20, 20, 20)];
    us.log_format.pattern_coloring_text_use_original = vec![false, true];
    let h = LogFormatLineHandler::new(&us).unwrap();

    let mut line: LineVec = vec![("aabbb".to_string(), Style::default())];
    let r = h.process_line(&mut line);
    assert!(r.is_ok());
    assert_eq!(line.len(), 2);
    assert_eq!(
        line[0],
        (
            "aa".to_string(),
            Style { background: Color::from_rgb(255, 0, 0), color: Color::from_rgb(10, 10, 10) }
        )
    );
    // The second group keeps the original text color.
    assert_eq!(
        line[1],
        (
            "bbb".to_string(),
            Style { background: Color::from_rgb(0, 255, 0), color: Style::default().color }
        )
    );
}

#[test]
fn format_rejects_fragmented_input() {
    let mut us = UserSettings::default();
    us.log_format.pattern = r"^(.*)$".to_string();
    us.log_format.pattern_coloring = vec![Color::from_rgb(255, 0, 0)];
    us.log_format.pattern_coloring_text = vec![Color::from_rgb(0, 0, 0)];
    us.log_format.pattern_coloring_text_use_original = vec![false];
    let h = LogFormatLineHandler::new(&us).unwrap();

    let mut line: LineVec = vec![
        ("ab".to_string(), Style::default()),
        ("cd".to_string(), Style::default()),
    ];
    let r = h.process_line(&mut line);
    assert!(r.is_err());
    assert_eq!(line.len(), 2);
}

#[test]
fn format_invalid_pattern_gives_no_handler() {
    let mut us = UserSettings::default();
    us.log_format.pattern = r"(".to_string();
    us.log_format.pattern_coloring = vec![Color::from_rgb(255, 0, 0)];
    assert!(LogFormatLineHandler::new(&us).is_none());
}

#[test]
fn token_highlight_basic() {
    let mut us = UserSettings::default();
    us.token_colors = vec![("ab".to_string(), Color::from_rgb(255, 0, 0))];
    let h = TokenHilightLineHandler::new(&us).unwrap();

    let mut line: LineVec = vec![("xaby".to_string(), Style::default())];
    h.process_line(&mut line);
    assert_eq!(joined_text(&line), "xaby");
    assert_eq!(line.len(), 3);
    assert_eq!(line[0], ("x".to_string(), Style::default()));
    // Dark red background picks white contrast text.
    assert_eq!(
        line[1],
        (
            "ab".to_string(),
            Style {
                background: Color::from_rgb(255, 0, 0),
                color: Color::from_rgb(255, 255, 255),
            }
        )
    );
    assert_eq!(line[2], ("y".to_string(), Style::default()));
}

#[test]
fn token_highlight_light_background_gets_black_text() {
    let mut us = UserSettings::default();
    us.token_colors = vec![("hit".to_string(), Color::from_rgb(250, 250, 250))];
    let h = TokenHilightLineHandler::new(&us).unwrap();

    let mut line: LineVec = vec![("a hit b".to_string(), Style::default())];
    h.process_line(&mut line);
    assert_eq!(line.len(), 3);
    assert_eq!(line[1].1.color, Color::from_rgb(0, 0, 0));
}

#[test]
fn token_highlight_drops_blank_tokens() {
    let mut us = UserSettings::default();
    us.token_colors = vec![
        ("".to_string(), Color::from_rgb(1, 2, 3)),
        ("   ".to_string(), Color::from_rgb(4, 5, 6)),
        ("ok".to_string(), Color::from_rgb(7, 8, 9)),
    ];
    let h = TokenHilightLineHandler::new(&us).unwrap();
    assert_eq!(h.token_colors.len(), 1);
    assert_eq!(h.token_colors[0].0, "ok");
}

#[test]
fn token_highlight_sorts_longest_first() {
    let mut us = UserSettings::default();
    us.token_colors = vec![
        ("ab".to_string(), Color::from_rgb(1, 1, 1)),
        ("wxyz".to_string(), Color::from_rgb(2, 2, 2)),
        ("mno".to_string(), Color::from_rgb(3, 3, 3)),
    ];
    let h = TokenHilightLineHandler::new(&us).unwrap();
    let names: Vec<&str> = h.token_colors.iter().map(|(t, _)| t.as_str()).collect();
    assert_eq!(names, vec!["wxyz", "mno", "ab"]);
}

#[test]
fn search_reports_points_of_interest() {
    let mut us = UserSettings::default();
    us.search_term = "kernel".to_string();
    let h = SearchLineHandler::new(&us).unwrap();

    let mut line: LineVec = vec![("the kernel said kernel".to_string(), Style::default())];
    let pois = h.process_line(&mut line);
    assert_eq!(pois.len(), 2);
    assert_eq!(pois[0].line, 0);
    assert_eq!(pois[0].line_part_index, 0);
    assert_eq!(pois[0].line_offset, 4);
    assert_eq!(pois[0].line_point_size, 6);
    assert_eq!(pois[1].line_offset, 16);
    // The highlight itself: yellow background, black text on each match.
    assert_eq!(joined_text(&line), "the kernel said kernel");
    let highlighted: Vec<&(String, Style)> = line
        .iter()
        .filter(|(_, st)| st.background == Color::from_rgb(255, 255, 0))
        .collect();
    assert_eq!(highlighted.len(), 2);
    assert!(highlighted.iter().all(|(t, st)| t.as_str() == "kernel" && st.color == Color::from_rgb(0, 0, 0)));
}

#[test]
fn split_lines_matches_str_lines() {
    let content = "one\ntwo\r\n\nfour";
    let mine = split_lines(content);
    let std_lines: Vec<&str> = content.lines().collect();
    assert_eq!(mine, std_lines);
    assert_eq!(mine, vec!["one", "two", "", "four"]);

    assert_eq!(split_lines(""), Vec::<String>::new());
    assert_eq!(split_lines("a\n"), vec!["a"]);
}

#[test]
fn content_metrics_max_and_count() {
    let (max_chars, count) = content_metrics("ab\nlonger line\nx\n");
    assert_eq!(max_chars, 11);
    assert_eq!(count, 3);
}

#[test]
fn line_number_labels() {
    assert_eq!(line_number_label(1), "1");
    assert_eq!(line_number_label(10), "10");
    assert_eq!(line_number_label(907), "907");
}

#[test]
fn visible_line_offsets_lookup() {
    let v = VisibleLineOffsets { offsets: vec![0, 2, 2] };
    assert_eq!(v.get_offset_for_visible_line(1), 0);
    assert_eq!(v.get_offset_for_visible_line(2), 2);
    assert_eq!(v.get_offset_for_visible_line(4), 0);
    assert_eq!(v.get_offset_for_visible_line(0), 0);
}

#[test]
fn recompute_filters_and_numbers_lines() {
    let mut us = UserSettings::default();
    us.filter_term = "keep".to_string();
    let file = OpenedFileMetadata {
        path: String::new(),
        content: "drop me\nkeep one\ndrop\nkeep two\n".to_string(),
        content_max_line_chars: 8,
        content_line_count: 4,
    };
    let (labels, rendered, pois, offsets) = recalculate_log_job(&file, &us).unwrap();
    assert_eq!(rendered.len(), 2);
    assert_eq!(joined_text(&rendered[0]), "keep one");
    assert_eq!(joined_text(&rendered[1]), "keep two");
    assert_eq!(labels, vec!["1", "2"]);
    assert!(pois.is_empty());
    // Visible line 1 is original line 2; visible line 2 is original line 4.
    assert_eq!(offsets.offsets, vec![1, 2]);
    assert_eq!(offsets.get_offset_for_visible_line(1) + 1, 2);
    assert_eq!(offsets.get_offset_for_visible_line(2) + 2, 4);
}

#[test]
fn recompute_is_idempotent() {
    let mut us = UserSettings::default();
    us.search_term = "ready".to_string();
    us.filter_term = "kernel || init".to_string();
    us.filter_extended = true;
    us.token_colors = vec![("boot".to_string(), Color::from_rgb(20, 20, 200))];
    let file = OpenedFileMetadata {
        path: String::new(),
        content: "[kernel] boot\nnoise\n[init] ready\n".to_string(),
        content_max_line_chars: 13,
        content_line_count: 3,
    };
    let first = recalculate_log_job(&file, &us).unwrap();
    let second = recalculate_log_job(&file, &us).unwrap();
    assert_eq!(first.0, second.0);
    assert_eq!(first.1, second.1);
    assert_eq!(first.2, second.2);
    assert_eq!(first.3.offsets, second.3.offsets);
}

#[test]
fn end_to_end_kernel_log() {
    let mut us = UserSettings::default();
    us.log_format.pattern = r"^(\[\s*[0-9]*)(\.)([0-9]*\])(\s.*)$".to_string();
    us.log_format.pattern_coloring = vec![
        Color::from_rgb(100, 0, 0),
        Color::from_rgb(0, 100, 0),
        Color::from_rgb(0, 0, 100),
        Color::from_rgb(50, 50, 50),
    ];
    us.log_format.pattern_coloring_text = vec![
        Color::from_rgb(255, 255, 255),
        Color::from_rgb(255, 255, 255),
        Color::from_rgb(255, 255, 255),
        Color::from_rgb(255, 255, 255),
    ];
    us.log_format.pattern_coloring_text_use_original = vec![false, false, false, false];
    us.search_term = "kernel".to_string();
    let file = OpenedFileMetadata {
        path: String::new(),
        content: "[ 0.000000] kernel: boot\n[ 1.5] kernel: ready\n".to_string(),
        content_max_line_chars: 24,
        content_line_count: 2,
    };
    let (labels, rendered, pois, offsets) = recalculate_log_job(&file, &us).unwrap();

    assert_eq!(rendered.len(), 2);
    assert_eq!(labels, vec!["1", "2"]);
    assert_eq!(offsets.offsets, vec![0, 0]);

    // Structural format split the first line into its four groups, and
    // the search isolated "kernel" inside the fourth one.
    assert_eq!(joined_text(&rendered[0]), "[ 0.000000] kernel: boot");
    assert_eq!(rendered[0][0].0, "[ 0");
    assert_eq!(rendered[0][1].0, ".");
    assert_eq!(rendered[0][2].0, "000000]");
    assert_eq!(rendered[0][0].1.background, Color::from_rgb(100, 0, 0));
    assert_eq!(joined_text(&rendered[1]), "[ 1.5] kernel: ready");

    assert_eq!(pois.len(), 2);
    assert_eq!(pois[0].line, 1);
    assert_eq!(pois[0].line_part_index, 3);
    assert_eq!(pois[0].line_offset, 1);
    assert_eq!(pois[0].line_point_size, 6);
    assert_eq!(pois[1].line, 2);
    assert_eq!(pois[1].line_part_index, 3);
    assert_eq!(pois[1].line_offset, 1);
    assert_eq!(pois[1].line_point_size, 6);

    // The highlighted matches carry the fixed review colors.
    let hits: Vec<&(String, Style)> = rendered[0]
        .iter()
        .filter(|(t, _)| t.as_str() == "kernel")
        .collect();
    assert_eq!(hits.len(), 1);
    assert_eq!(hits[0].1.background, Color::from_rgb(255, 255, 0));
    assert_eq!(hits[0].1.color, Color::from_rgb(0, 0, 0));
}

#[test]
fn recompute_fails_when_format_sees_filtered_line() {
    // The one documented sharp edge: a dropped line reaches the
    // structural-format stage fragmented, and the recompute reports
    // failure instead of dying.
    let mut us = UserSettings::default();
    us.filter_term = "keep".to_string();
    us.log_format.pattern = r"^(.*)$".to_string();
    us.log_format.pattern_coloring = vec![Color::from_rgb(1, 2, 3)];
    us.log_format.pattern_coloring_text = vec![Color::from_rgb(0, 0, 0)];
    us.log_format.pattern_coloring_text_use_original = vec![false];
    let file = OpenedFileMetadata {
        path: String::new(),
        content: "keep\ndrop\n".to_string(),
        content_max_line_chars: 4,
        content_line_count: 2,
    };
    assert!(recalculate_log_job(&file, &us).is_none());
}

#[test]
fn handler_kinds_and_activity() {
    let mut us = UserSettings::default();
    us.filter_term = "x".to_string();
    us.search_term = "y".to_string();
    us.token_colors = vec![("t".to_string(), Color::from_rgb(1, 2, 3))];
    us.log_format.pattern = "(a)".to_string();
    us.log_format.pattern_coloring = vec![Color::from_rgb(1, 2, 3)];

    let f = FilterLineHandler::new(&us).unwrap();
    assert!(f.is_active());
    assert!(f.handler_type() == LineHandlerType::Filter);
    let s = SearchLineHandler::new(&us).unwrap();
    assert!(s.is_active());
    assert!(s.handler_type() == LineHandlerType::Search);
    let t = TokenHilightLineHandler::new(&us).unwrap();
    assert!(t.is_active());
    assert!(t.handler_type() == LineHandlerType::TokenHilight);
    let g = LogFormatLineHandler::new(&us).unwrap();
    assert!(g.is_active());
    assert!(g.handler_type() == LineHandlerType::LogFormat);

    assert!(FilterLineHandler::new(&UserSettings::default()).is_none());
    assert!(SearchLineHandler::new(&UserSettings::default()).is_none());
}

#[test]
fn blank_lines_stay_visible() {
    // Only an empty segment sequence suppresses a line; a blank line
    // still has its one segment and keeps its number.
    let us = UserSettings::default();
    let file = OpenedFileMetadata {
        path: String::new(),
        content: "a\n\nb\n".to_string(),
        content_max_line_chars: 1,
        content_line_count: 3,
    };
    let (labels, rendered, _pois, offsets) = recalculate_log_job(&file, &us).unwrap();
    assert_eq!(rendered.len(), 3);
    assert_eq!(joined_text(&rendered[0]), "a");
    assert_eq!(joined_text(&rendered[1]), "");
    assert_eq!(joined_text(&rendered[2]), "b");
    assert_eq!(labels, vec!["1", "2", "3"]);
    assert_eq!(offsets.offsets, vec![0, 0, 0]);
}

#[test]
fn filter_mixed_connectives_is_config_error() {
    let mut us = UserSettings::default();
    us.filter_term = "error && failed || warning".to_string();
    us.filter_extended = true;
    // A term mixing the two connectives is configuration-invalid: the
    // filter is inactive rather than silently preferring one connective.
    assert!(FilterLineHandler::new(&us).is_none());

    let handler = FilterLineHandler {
        filter_term: us.filter_term.clone(),
        match_case: false,
        whole_word: false,
        negative: false,
        extended: true,
    };
    let mut line: LineVec = vec![("no connective words here".to_string(), Style::default())];
    handler.process_line(&mut line);
    assert_eq!(line.len(), 1);
}

#[test]
fn token_highlight_does_not_resplit_claimed_region() {
    let mut us = UserSettings::default();
    us.token_colors = vec![
        ("b".to_string(), Color::from_rgb(0, 0, 255)),
        ("ab".to_string(), Color::from_rgb(255, 0, 0)),
    ];
    // Sorted longest first, "ab" runs before "b" and claims its region;
    // the "b" inside that region is skipped, the free-standing "b" is
    // still highlighted.
    let h = TokenHilightLineHandler::new(&us).unwrap();

    let mut line: LineVec = vec![("ab b".to_string(), Style::default())];
    h.process_line(&mut line);
    assert_eq!(joined_text(&line), "ab b");

    let red_hits: Vec<&(String, Style)> = line
        .iter()
        .filter(|(_, st)| st.background == Color::from_rgb(255, 0, 0))
        .collect();
    assert_eq!(red_hits.len(), 1);
    assert_eq!(red_hits[0].0, "ab");

    let blue_hits: Vec<&(String, Style)> = line
        .iter()
        .filter(|(_, st)| st.background == Color::from_rgb(0, 0, 255))
        .collect();
    assert_eq!(blue_hits.len(), 1);
    assert_eq!(blue_hits[0].0, "b");
}
