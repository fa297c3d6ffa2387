use logalyzer::Color;
use logalyzer::LineVec;
use logalyzer::Style;
use logalyzer::linevec_find;
use logalyzer::linevec_split;

#[test]
fn basic_string_searches() {
    let line: LineVec = vec![("Hello world".to_string(), Style::default())];

    let mut split_points = linevec_find(&line, "lo wo", true, false);
    assert_eq!(split_points.len(), 1);
    assert_eq!(split_points[0], ((0, 3), (0, 8)));

    split_points = linevec_find(&line, "Hello", true, false);
    assert_eq!(split_points.len(), 1);
    assert_eq!(split_points[0], ((0, 0), (0, 5)));

    split_points = linevec_find(&line, "world", true, false);
    assert_eq!(split_points.len(), 1);
    assert_eq!(split_points[0], ((0, 6), (0, 11)));
}

#[test]
fn multi_part_string_searches_simple() {
    let line: LineVec = vec![
        ("Hello ".to_string(), Style::default()),
        ("cruel".to_string(), Style::default()),
        ("world".to_string(), Style::default()),
    ];

    let mut split_points = linevec_find(&line, "Hello", true, false);
    assert_eq!(split_points.len(), 1);
    assert_eq!(split_points[0], ((0, 0), (0, 5)));

    split_points = linevec_find(&line, "cruel", true, false);
    assert_eq!(split_points.len(), 1);
    assert_eq!(split_points[0], ((1, 0), (1, 5)));

    split_points = linevec_find(&line, "world", true, false);
    assert_eq!(split_points.len(), 1);
    assert_eq!(split_points[0], ((2, 0), (2, 5)));
}

#[test]
fn multi_part_string_searches_across_parts() {
    let line: LineVec = vec![
        ("Hello ".to_string(), Style::default()),
        ("cruel ".to_string(), Style::default()),
        ("world".to_string(), Style::default()),
    ];

    let mut split_points = linevec_find(&line, "lo cru", true, false);
    assert_eq!(split_points.len(), 1);
    assert_eq!(split_points[0], ((0, 3), (1, 3)));

    split_points = linevec_find(&line, "cruel wo", true, false);
    assert_eq!(split_points.len(), 1);
    assert_eq!(split_points[0], ((1, 0), (2, 2)));

    split_points = linevec_find(&line, "Hello cruel world", true, false);
    assert_eq!(split_points.len(), 1);
    assert_eq!(split_points[0], ((0, 0), (2, 5)));
}

#[test]
fn multi_part_string_searches_multiple_occurrences() {
    let line: LineVec = vec![
        ("Hello ".to_string(), Style::default()),
        ("cruel ".to_string(), Style::default()),
        ("world".to_string(), Style::default()),
        ("Hello ".to_string(), Style::default()),
        ("world".to_string(), Style::default()),
    ];

    let mut split_points = linevec_find(&line, "lo", true, false);
    assert_eq!(split_points.len(), 2);
    assert_eq!(split_points[0], ((0, 3), (0, 5)));
    assert_eq!(split_points[1], ((3, 3), (3, 5)));

    split_points = linevec_find(&line, "world", true, false);
    assert_eq!(split_points.len(), 2);
    assert_eq!(split_points[0], ((2, 0), (2, 5)));
    assert_eq!(split_points[1], ((4, 0), (4, 5)));

    split_points = linevec_find(&line, "o", true, false);
    assert_eq!(split_points.len(), 4);
    assert_eq!(split_points[0], ((0, 4), (0, 5)));
    assert_eq!(split_points[1], ((2, 1), (2, 2)));
    assert_eq!(split_points[2], ((3, 4), (3, 5)));
    assert_eq!(split_points[3], ((4, 1), (4, 2)));
}

#[test]
fn multi_part_string_searches_across_parts_multiple_occurrences() {
    let line: LineVec = vec![
        ("ab".to_string(), Style::default()),
        ("cd".to_string(), Style::default()),
        ("ab".to_string(), Style::default()),
        ("cd".to_string(), Style::default()),
    ];

    let split_points = linevec_find(&line, "bc", true, false);
    assert_eq!(split_points.len(), 2);
    assert_eq!(split_points[0], ((0, 1), (1, 1)));
    assert_eq!(split_points[1], ((2, 1), (3, 1)));
}

#[test]
fn case_insensitive_searches() {
    let line: LineVec = vec![("Hello World".to_string(), Style::default())];

    let mut split_points = linevec_find(&line, "hello", false, false);
    assert_eq!(split_points.len(), 1);
    assert_eq!(split_points[0], ((0, 0), (0, 5)));

    split_points = linevec_find(&line, "WORLD", false, false);
    assert_eq!(split_points.len(), 1);
    assert_eq!(split_points[0], ((0, 6), (0, 11)));

    split_points = linevec_find(&line, "Lo Wo", false, false);
    assert_eq!(split_points.len(), 1);
    assert_eq!(split_points[0], ((0, 3), (0, 8)));
}

#[test]
fn whole_word_searches() {
    let line: LineVec = vec![("Hello world, hello universe".to_string(), Style::default())];

    let mut split_points = linevec_find(&line, "hello", true, true);
    assert_eq!(split_points.len(), 1);
    assert_eq!(split_points[0], ((0, 13), (0, 18)));

    split_points = linevec_find(&line, "world", true, true);
    assert_eq!(split_points.len(), 1);
    assert_eq!(split_points[0], ((0, 6), (0, 11)));

    split_points = linevec_find(&line, "lo", true, true);
    assert_eq!(split_points.len(), 0);
}

#[test]
fn whole_word_searches_across_parts() {
    let line: LineVec = vec![
        ("lorem ip".to_string(), Style::default()),
        ("sum, consecteur ".to_string(), Style::default()),
        ("adipiscit el".to_string(), Style::default()),
        ("it".to_string(), Style::default()),
    ];

    let mut split_points = linevec_find(&line, "ipsum", true, true);
    assert_eq!(split_points.len(), 1);
    assert_eq!(split_points[0], ((0, 6), (1, 3)));

    split_points = linevec_find(&line, "elit", true, true);
    assert_eq!(split_points.len(), 1);
    assert_eq!(split_points[0], ((2, 10), (3, 2)));

    split_points = linevec_find(&line, "teur adipiscit", true, true);
    assert_eq!(split_points.len(), 0);
}

#[test]
fn basic_split() {
    let mut line: LineVec = vec![("Hello world".to_string(), Style::default())];

    let split_points = vec![((0, 3), (0, 8))];
    linevec_split(&mut line, split_points, None, None);

    assert_eq!(line.len(), 3);
    assert_eq!(line[0], ("Hel".to_string(), Style::default()));
    assert_eq!(line[1], ("lo wo".to_string(), Style::default()));
    assert_eq!(line[2], ("rld".to_string(), Style::default()));
}

#[test]
fn multi_part_split() {
    let mut line: LineVec = vec![
        ("Hello ".to_string(), Style::default()),
        ("cruel ".to_string(), Style::default()),
        ("world".to_string(), Style::default()),
    ];

    let split_points = vec![((0, 3), (1, 3))];
    linevec_split(&mut line, split_points, None, None);

    assert_eq!(line.len(), 5);
    assert_eq!(line[0], ("Hel".to_string(), Style::default()));
    assert_eq!(line[1], ("lo ".to_string(), Style::default()));
    assert_eq!(line[2], ("cru".to_string(), Style::default()));
    assert_eq!(line[3], ("el ".to_string(), Style::default()));
    assert_eq!(line[4], ("world".to_string(), Style::default()));
}

#[test]
fn basic_split_with_coloring() {
    let mut line: LineVec = vec![("Hello world".to_string(), Style::default())];

    let split_points = vec![((0, 3), (0, 8))];
    linevec_split(
        &mut line,
        split_points,
        Some(Color::from_rgb(255, 0, 0)),
        Some(Color::from_rgb(255, 255, 255)),
    );

    assert_eq!(line.len(), 3);
    assert_eq!(line[0], ("Hel".to_string(), Style::default()));
    assert_eq!(
        line[1],
        (
            "lo wo".to_string(),
            Style {
                background: Color::from_rgb(255, 0, 0),
                color: Color::from_rgb(255, 255, 255),
            }
        )
    );
    assert_eq!(line[2], ("rld".to_string(), Style::default()));
}

#[test]
fn multi_part_split_with_coloring() {
    let mut line: LineVec = vec![
        ("Hello ".to_string(), Style::default()),
        ("cruel ".to_string(), Style::default()),
        ("world".to_string(), Style::default()),
    ];

    let split_points = vec![((0, 3), (1, 3))];
    linevec_split(
        &mut line,
        split_points,
        Some(Color::from_rgb(255, 0, 0)),
        Some(Color::from_rgb(255, 255, 255)),
    );

    let highlight = Style {
        background: Color::from_rgb(255, 0, 0),
        color: Color::from_rgb(255, 255, 255),
    };
    assert_eq!(line.len(), 5);
    assert_eq!(line[0], ("Hel".to_string(), Style::default()));
    assert_eq!(line[1], ("lo ".to_string(), highlight));
    assert_eq!(line[2], ("cru".to_string(), highlight));
    assert_eq!(line[3], ("el ".to_string(), Style::default()));
    assert_eq!(line[4], ("world".to_string(), Style::default()));
}

#[test]
fn whole_word_case_insensitive_search() {
    let line: LineVec = vec![("Hello world, hello universe".to_string(), Style::default())];

    let split_points = linevec_find(&line, "hello", false, true);
    assert_eq!(split_points.len(), 2);
    assert_eq!(split_points[0], ((0, 0), (0, 5)));
    assert_eq!(split_points[1], ((0, 13), (0, 18)));
}

#[test]
fn empty_needle_finds_nothing() {
    let line: LineVec = vec![("Hello world".to_string(), Style::default())];
    let split_points = linevec_find(&line, "", true, false);
    assert_eq!(split_points.len(), 0);
}

#[test]
fn split_conserves_text() {
    let mut line: LineVec = vec![
        ("abc".to_string(), Style::default()),
        ("defg".to_string(), Style::default()),
    ];
    let split_points = linevec_find(&line, "cde", true, false);
    assert_eq!(split_points.len(), 1);
    linevec_split(&mut line, split_points, Some(Color::from_rgb(0, 0, 255)), None);
    let joined: String = line.iter().map(|(s, _)| s.as_str()).collect::<Vec<_>>().join("");
    assert_eq!(joined, "abcdefg");
}
