//! The recompute driver: data carried across lines (points of interest,
//! visible-line offsets), line splitting of the loaded content, and the
//! per-line pipeline run over every line of the file.

use vstd::prelude::*;

use crate::line_handlers::find_first;
use crate::line_handlers::lemma_find_first_some;
use crate::linevec::LineVec;
use crate::linevec::line_view;
use crate::linevec::line_text;
use crate::linevec::seg_texts;
use crate::text::collect_chars;
use crate::style::Style;
use crate::style::Color;
use crate::style::default_style;
use crate::linevec::find_spec;
use crate::linevec::fold_case;
use crate::line_handlers::FilterLineHandler;
use crate::line_handlers::LogFormatLineHandler;
use crate::line_handlers::TokenHilightLineHandler;
use crate::line_handlers::SearchLineHandler;
use crate::line_handlers::filter_result;
use crate::line_handlers::format_result;
use crate::line_handlers::apply_tokens;
use crate::line_handlers::sort_tokens;
use crate::line_handlers::keep_tokens;
use crate::line_handlers::tokens_view;
use crate::line_handlers::search_result;
use crate::line_handlers::pattern_valid;
use crate::line_handlers::lemma_filter_keeps_or_drops;
use crate::line_handlers::lemma_apply_tokens_conserves_text;
use crate::user_settings::UserSettings;

verus! {

/// One recorded search match: the visible line it was found on, the
/// segment of that line's final representation, the character offset
/// inside that segment, and the match length. The line number is filled
/// in by the driver; the search handler itself does not know it.
#[derive(Clone, Copy, Debug, PartialEq, Eq, Structural)]
pub struct PointOfInterest {
    pub line: usize,
    pub line_part_index: usize,
    pub line_offset: usize,
    pub line_point_size: usize,
}

/// What the loader hands the driver: the file's path, its full text, and
/// the precomputed longest-line length (in characters, as the field name
/// says) and line count.
pub struct OpenedFileMetadata {
    pub path: String,
    pub content: String,
    pub content_max_line_chars: usize,
    pub content_line_count: usize,
}

impl Default for OpenedFileMetadata {
    fn default() -> (m: OpenedFileMetadata)
        ensures
            m.path@.len() == 0,
            m.content@.len() == 0,
            m.content_max_line_chars == 0,
            m.content_line_count == 0,
    {
        OpenedFileMetadata {
            path: String::new(),
            content: String::new(),
            content_max_line_chars: 0,
            content_line_count: 0,
        }
    }
}

/// For each visible line, how many original lines before it were
/// filtered out: original line number = visible line number + offset.
pub struct VisibleLineOffsets {
    pub offsets: Vec<usize>,
}

impl VisibleLineOffsets {
    /// The offset recorded for 1-based visible line `visible_line_no`;
    /// zero for a line number out of range.
    pub fn get_offset_for_visible_line(&self, visible_line_no: usize) -> (r: usize)
        ensures
            1 <= visible_line_no <= self.offsets@.len() ==> r == self.offsets@[visible_line_no
                - 1],
            !(1 <= visible_line_no <= self.offsets@.len()) ==> r == 0,
    {
        if visible_line_no >= 1 && visible_line_no <= self.offsets.len() {
            self.offsets[visible_line_no - 1]
        } else {
            0
        }
    }
}

impl Default for VisibleLineOffsets {
    fn default() -> (v: VisibleLineOffsets)
        ensures
            v.offsets@.len() == 0,
    {
        VisibleLineOffsets { offsets: Vec::new() }
    }
}

/// The pieces `str::lines` yields: split at each newline, one carriage
/// return stripped from the end of a piece that a newline ended, and no
/// empty piece after a final newline.
pub open spec fn strip_cr(l: Seq<char>) -> Seq<char> {
    if l.len() > 0 && l.last() == '\r' {
        l.drop_last()
    } else {
        l
    }
}

/// The lines of `s` from offset `from` on.
pub open spec fn lines_of_from(s: Seq<char>, from: int) -> Seq<Seq<char>>
    decreases s.len() - from,
    when 0 <= from
    via lines_of_from_decreases
{
    if from >= s.len() {
        Seq::empty()
    } else {
        match find_first(s, seq!['\n'], from) {
            None => seq![s.subrange(from, s.len() as int)],
            Some(i) => seq![strip_cr(s.subrange(from, i))] + lines_of_from(s, i + 1),
        }
    }
}

#[via_fn]
proof fn lines_of_from_decreases(s: Seq<char>, from: int) {
    if 0 <= from < s.len() && find_first(s, seq!['\n'], from) is Some {
        lemma_find_first_some(s, seq!['\n'], from);
    }
}

/// The lines of a loaded text, as `str::lines` splits them.
pub open spec fn lines_of(s: Seq<char>) -> Seq<Seq<char>> {
    lines_of_from(s, 0)
}

/// A sequence of owned lines as their character sequences.
pub open spec fn lines_view(v: Seq<String>) -> Seq<Seq<char>> {
    Seq::new(v.len(), |i: int| v[i]@)
}

/// Clones the characters `from..to` of a borrowed text.
fn substr_str(s: &str, from: usize, to: usize) -> (r: String)
    requires
        from <= to <= s@.len(),
    ensures
        r@ == s@.subrange(from as int, to as int),
{
    String::from_str(s.substring_char(from, to))
}

/// Splits a loaded text into its lines, as `str::lines` does: at each
/// newline, stripping one carriage return before it, with no empty line
/// after a final newline.
pub fn split_lines(content: &str) -> (r: Vec<String>)
    ensures
        lines_view(r@) == lines_of(content@),
{
    let chars = collect_chars(content);
    let n = chars.len();
    let mut nl: Vec<char> = Vec::new();
    nl.push('\n');
    proof {
        assert(nl@ =~= seq!['\n']);
    }
    let mut out: Vec<String> = Vec::new();
    let mut cur: usize = 0;
    proof {
        assert(lines_view(out@) =~= Seq::<Seq<char>>::empty());
    }
    loop
        invariant_except_break
            cur <= n,
            n == content@.len(),
            chars@ == content@,
            nl@ == seq!['\n'],
            lines_view(out@) + lines_of_from(content@, cur as int) == lines_of(content@),
        ensures
            lines_view(out@) == lines_of(content@),
        decreases n - cur,
    {
        if cur >= n {
            proof {
                assert(lines_of_from(content@, cur as int) =~= Seq::<Seq<char>>::empty());
                assert(lines_view(out@) =~= lines_of(content@));
            }
            break ;
        }
        match crate::line_handlers::find_first_in(&chars, &nl, cur) {
            Some(i) => {
                proof {
                    lemma_find_first_some(content@, seq!['\n'], cur as int);
                }
                let piece = if i > cur && chars[i - 1] == '\r' {
                    substr_str(content, cur, i - 1)
                } else {
                    substr_str(content, cur, i)
                };
                proof {
                    assert(piece@ == strip_cr(content@.subrange(cur as int, i as int)));
                }
                out.push(piece);
                proof {
                    assert(lines_of_from(content@, cur as int) == seq![
                        strip_cr(content@.subrange(cur as int, i as int)),
                    ] + lines_of_from(content@, i as int + 1));
                    assert(lines_view(out@) =~= lines_view(out@.drop_last()) + seq![
                        out@.last()@,
                    ]);
                    assert(lines_view(out@) + lines_of_from(content@, i as int + 1) =~= lines_of(
                        content@,
                    ));
                }
                cur = i + 1;
            },
            None => {
                let piece = substr_str(content, cur, n);
                out.push(piece);
                proof {
                    assert(lines_of_from(content@, cur as int) == seq![
                        content@.subrange(cur as int, n as int),
                    ]);
                    assert(lines_view(out@) =~= lines_view(out@.drop_last()) + seq![
                        out@.last()@,
                    ]);
                    assert(lines_view(out@) =~= lines_of(content@));
                }
                break ;
            },
        }
    }
    out
}

/// The length of the longest line.
pub open spec fn max_line_len(lines: Seq<Seq<char>>) -> int
    decreases lines.len(),
{
    if lines.len() == 0 {
        0
    } else {
        let rest = max_line_len(lines.drop_last());
        if lines.last().len() > rest {
            lines.last().len() as int
        } else {
            rest
        }
    }
}

/// The longest line's length and the line count of a loaded text: what
/// the loader precomputes for the viewer. Lengths are counted in
/// characters, not UTF-8 bytes; the two differ on non-ASCII content.
pub fn content_metrics(content: &str) -> (r: (usize, usize))
    ensures
        r.0 as int == max_line_len(lines_of(content@)),
        r.1 as int == lines_of(content@).len(),
{
    let lines = split_lines(content);
    let ghost lv = lines_of(content@);
    let mut best: usize = 0;
    let mut i: usize = 0;
    while i < lines.len()
        invariant
            i <= lines@.len(),
            lines_view(lines@) == lv,
            best as int == max_line_len(lv.take(i as int)),
        decreases lines@.len() - i,
    {
        let l = lines[i].as_str().unicode_len();
        proof {
            assert(lv.take(i as int + 1).drop_last() =~= lv.take(i as int));
            assert(lv.take(i as int + 1).last() == lines@[i as int]@);
        }
        if l > best {
            best = l;
        }
        i = i + 1;
    }
    proof {
        assert(lv.take(lines@.len() as int) =~= lv);
    }
    (best, lines.len())
}

/// The decimal digit characters.
pub open spec fn digit_char(d: int) -> char {
    if d == 0 {
        '0'
    } else if d == 1 {
        '1'
    } else if d == 2 {
        '2'
    } else if d == 3 {
        '3'
    } else if d == 4 {
        '4'
    } else if d == 5 {
        '5'
    } else if d == 6 {
        '6'
    } else if d == 7 {
        '7'
    } else if d == 8 {
        '8'
    } else {
        '9'
    }
}

/// The decimal notation of a number, most significant digit first, no
/// leading zeros except for zero itself.
pub open spec fn decimal_of(n: int) -> Seq<char>
    decreases n,
    when n >= 0
{
    if n < 10 {
        seq![digit_char(n)]
    } else {
        decimal_of(n / 10).push(digit_char(n % 10))
    }
}

/// Appends one decimal digit character.
fn push_digit(s: &mut String, d: usize)
    requires
        d < 10,
    ensures
        final(s)@ == old(s)@.push(digit_char(d as int)),
{
    if d == 0 {
        proof {
            reveal_strlit("0");
        }
        s.append("0");
    } else if d == 1 {
        proof {
            reveal_strlit("1");
        }
        s.append("1");
    } else if d == 2 {
        proof {
            reveal_strlit("2");
        }
        s.append("2");
    } else if d == 3 {
        proof {
            reveal_strlit("3");
        }
        s.append("3");
    } else if d == 4 {
        proof {
            reveal_strlit("4");
        }
        s.append("4");
    } else if d == 5 {
        proof {
            reveal_strlit("5");
        }
        s.append("5");
    } else if d == 6 {
        proof {
            reveal_strlit("6");
        }
        s.append("6");
    } else if d == 7 {
        proof {
            reveal_strlit("7");
        }
        s.append("7");
    } else if d == 8 {
        proof {
            reveal_strlit("8");
        }
        s.append("8");
    } else {
        proof {
            reveal_strlit("9");
        }
        s.append("9");
    }
    proof {
        assert(s@ =~= old(s)@.push(digit_char(d as int)));
    }
}

/// The text of a digit list, least significant digit first, read out
/// most significant digit first.
pub open spec fn digits_text(ds: Seq<usize>) -> Seq<char>
    decreases ds.len(),
{
    if ds.len() == 0 {
        Seq::empty()
    } else {
        seq![digit_char(ds.last() as int)] + digits_text(ds.drop_last())
    }
}

/// The decimal label for a line number.
pub fn line_number_label(n: usize) -> (r: String)
    ensures
        r@ == decimal_of(n as int),
{
    let mut digits: Vec<usize> = Vec::new();
    let mut m = n;
    proof {
        if n > 0 {
            assert(decimal_of(n as int) + digits_text(digits@) =~= decimal_of(n as int));
        }
    }
    loop
        invariant_except_break
            forall|k: int| 0 <= k < digits@.len() ==> (#[trigger] digits@[k]) < 10,
            m > 0 ==> decimal_of(n as int) == decimal_of(m as int) + digits_text(digits@),
            m == 0 ==> n == 0 && digits@.len() == 0,
        ensures
            forall|k: int| 0 <= k < digits@.len() ==> (#[trigger] digits@[k]) < 10,
            decimal_of(n as int) == digits_text(digits@),
        decreases m,
    {
        let d = m % 10;
        let next = m / 10;
        let ghost pre = digits@;
        digits.push(d);
        proof {
            assert(digits@.last() == d);
            assert(digits@.drop_last() =~= pre);
            assert(digits_text(digits@) == seq![digit_char(d as int)] + digits_text(pre));
        }
        if next == 0 {
            proof {
                assert(m < 10);
                assert(d == m);
                assert(decimal_of(m as int) == seq![digit_char(m as int)]);
                if m > 0 {
                    assert(decimal_of(n as int) =~= seq![digit_char(d as int)] + digits_text(
                        pre,
                    ));
                } else {
                    assert(n == 0);
                    assert(pre.len() == 0);
                    assert(digits_text(digits@) =~= seq![digit_char(0)]);
                    assert(decimal_of(n as int) == seq![digit_char(0)]);
                }
                assert(decimal_of(n as int) == digits_text(digits@));
            }
            break ;
        }
        proof {
            assert(m >= 10);
            assert(decimal_of(m as int) == decimal_of(next as int).push(digit_char(d as int)));
            assert(decimal_of(next as int) + digits_text(digits@) =~= decimal_of(m as int)
                + digits_text(pre));
        }
        m = next;
    }
    let mut s = String::new();
    let mut j = digits.len();
    proof {
        assert(digits@.take(j as int) =~= digits@);
        assert(s@ =~= Seq::<char>::empty());
        assert(s@ + digits_text(digits@.take(j as int)) =~= digits_text(digits@));
    }
    while j > 0
        invariant
            j <= digits@.len(),
            forall|k: int| 0 <= k < digits@.len() ==> (#[trigger] digits@[k]) < 10,
            decimal_of(n as int) == digits_text(digits@),
            s@ + digits_text(digits@.take(j as int)) == digits_text(digits@),
        decreases j,
    {
        let d = digits[j - 1];
        push_digit(&mut s, d);
        proof {
            assert(digits@.take(j as int).last() == d);
            assert(digits@.take(j as int).drop_last() =~= digits@.take(j as int - 1));
            assert(digits_text(digits@.take(j as int)) == seq![digit_char(d as int)]
                + digits_text(digits@.take(j as int - 1)));
            assert(s@ + digits_text(digits@.take(j as int - 1)) =~= digits_text(digits@));
        }
        j = j - 1;
    }
    proof {
        assert(digits@.take(0) =~= Seq::<usize>::empty());
        assert(s@ =~= decimal_of(n as int));
    }
    s
}

/// A raw line as the pipeline first sees it: one full segment in the
/// default style.
pub open spec fn initial_line(text: Seq<char>) -> Seq<(Seq<char>, Style)> {
    seq![(text, default_style())]
}

/// The initial representation's text is the raw line.
pub proof fn lemma_initial_line_text(text: Seq<char>)
    ensures
        line_text(initial_line(text)) == text,
{
    assert(seg_texts(initial_line(text)) =~= seq![text]);
    seq![text].lemma_flatten_one_element();
}

/// Whether the filter stage takes part in a recompute: the term is
/// nonempty and, in extended mode, does not mix the two connectives.
pub open spec fn filter_stage_active(us: UserSettings) -> bool {
    us.filter_term@.len() > 0 && !(us.filter_extended && crate::line_handlers::mixed_connectives(
        us.filter_term@,
    ))
}

/// Whether the structural-format stage takes part in a recompute.
pub open spec fn format_stage_active(us: UserSettings) -> bool {
    us.log_format.pattern@.len() > 0 && us.log_format.pattern_coloring@.len() > 0 && pattern_valid(
        us.log_format.pattern@,
    )
}

/// Whether the token highlight stage takes part in a recompute.
pub open spec fn token_stage_active(us: UserSettings) -> bool {
    us.token_colors@.len() > 0
}

/// Whether the search stage takes part in a recompute.
pub open spec fn search_stage_active(us: UserSettings) -> bool {
    us.search_term@.len() > 0
}

/// One raw line run through every active stage in the fixed order
/// filter, structural format, token highlight, search: the final
/// representation and the search spans found on it. None when the
/// structural-format stage was handed a fragmented line, which fails the
/// whole recompute.
pub open spec fn run_line(us: UserSettings, text: Seq<char>) -> Option<
    (Seq<(Seq<char>, Style)>, Seq<((int, int), (int, int))>),
> {
    let m0 = initial_line(text);
    let m1 = if filter_stage_active(us) {
        filter_result(
            m0,
            us.filter_term@,
            us.filter_match_case,
            us.filter_whole_word,
            us.filter_negative,
            us.filter_extended,
        )
    } else {
        m0
    };
    if format_stage_active(us) && m1.len() != 1 {
        None
    } else {
        let m2 = if format_stage_active(us) {
            format_result(
                m1,
                us.log_format.pattern@,
                us.log_format.pattern_coloring@,
                us.log_format.pattern_coloring_text@,
                us.log_format.pattern_coloring_text_use_original@,
            )
        } else {
            m1
        };
        let m3 = if token_stage_active(us) {
            apply_tokens(
                m2,
                sort_tokens(keep_tokens(tokens_view(us.token_colors@))),
                Seq::<(int, int)>::empty(),
            )
        } else {
            m2
        };
        if search_stage_active(us) {
            Some(
                (
                    search_result(m3, us.search_term@, us.search_match_case, us.search_whole_word),
                    find_spec(m3, us.search_term@, us.search_match_case, us.search_whole_word),
                ),
            )
        } else {
            Some((m3, Seq::empty()))
        }
    }
}

/// The character length of the search term under the search's case rule:
/// what each point of interest records as its match length.
pub open spec fn poi_size(us: UserSettings) -> int {
    fold_case(us.search_term@, us.search_match_case).len() as int
}

/// The points of interest one line contributes, as (line number, segment
/// index, offset, length) records.
pub open spec fn pois_of(spans: Seq<((int, int), (int, int))>, line_no: int, size: int) -> Seq<
    (int, int, int, int),
> {
    Seq::new(spans.len(), |k: int| (line_no, spans[k].0.0, spans[k].0.1, size))
}

/// The whole recompute from line `i` on, with `vis` lines already
/// visible: the surviving representations in order, the points of
/// interest with their visible line numbers, and for each visible line
/// the count of original lines dropped before it. None when any line
/// fails the structural-format stage.
pub open spec fn drive_from(us: UserSettings, lines: Seq<Seq<char>>, i: int, vis: int) -> Option<
    (Seq<Seq<(Seq<char>, Style)>>, Seq<(int, int, int, int)>, Seq<int>),
>
    decreases lines.len() - i,
    when 0 <= i
{
    if i >= lines.len() {
        Some((Seq::empty(), Seq::empty(), Seq::empty()))
    } else {
        match run_line(us, lines[i]) {
            None => None,
            Some(pr) => {
                let visible = pr.0.len() > 0;
                match drive_from(
                    us,
                    lines,
                    i + 1,
                    if visible {
                        vis + 1
                    } else {
                        vis
                    },
                ) {
                    None => None,
                    Some(rest) => Some(
                        (
                            (if visible {
                                seq![pr.0]
                            } else {
                                Seq::empty()
                            }) + rest.0,
                            pois_of(pr.1, vis + 1, poi_size(us)) + rest.1,
                            (if visible {
                                seq![i - vis]
                            } else {
                                Seq::empty()
                            }) + rest.2,
                        ),
                    ),
                }
            },
        }
    }
}

/// One line run through the active handler set, in the fixed order:
/// the transformed representation and the raw points of interest, or
/// none when the structural-format stage was handed a fragmented line.
fn run_line_exec(
    filter_h: &Option<FilterLineHandler>,
    format_h: &Option<LogFormatLineHandler>,
    token_h: &Option<TokenHilightLineHandler>,
    search_h: &Option<SearchLineHandler>,
    text: String,
    Ghost(us): Ghost<UserSettings>,
) -> (r: Option<(LineVec, Vec<PointOfInterest>)>)
    requires
        text@.len() <= usize::MAX,
        filter_h is Some <==> filter_stage_active(us),
        filter_h matches Some(h) ==> h.filter_term@ == us.filter_term@ && h.match_case
            == us.filter_match_case && h.whole_word == us.filter_whole_word && h.negative
            == us.filter_negative && h.extended == us.filter_extended,
        format_h is Some <==> format_stage_active(us),
        format_h matches Some(h) ==> h.pattern@ == us.log_format.pattern@ && h.pattern_coloring@
            == us.log_format.pattern_coloring@ && h.pattern_coloring_text@
            == us.log_format.pattern_coloring_text@ && h.pattern_coloring_text_use_original@
            == us.log_format.pattern_coloring_text_use_original@,
        token_h is Some <==> token_stage_active(us),
        token_h matches Some(h) ==> tokens_view(h.token_colors@) == sort_tokens(
            keep_tokens(tokens_view(us.token_colors@)),
        ),
        search_h is Some <==> search_stage_active(us),
        search_h matches Some(h) ==> h.search_term@ == us.search_term@ && h.match_case
            == us.search_match_case && h.whole_word == us.search_whole_word,
    ensures
        r is None <==> run_line(us, text@) is None,
        r matches Some(out) ==> {
            let pr = run_line(us, text@)->Some_0;
            &&& line_view(out.0) == pr.0
            &&& out.1@.len() == pr.1.len()
            &&& forall|k: int|
                0 <= k < out.1@.len() ==> {
                    let sp = pr.1[k];
                    &&& (#[trigger] out.1@[k]).line == 0
                    &&& out.1@[k].line_part_index as int == sp.0.0
                    &&& out.1@[k].line_offset as int == sp.0.1
                    &&& out.1@[k].line_point_size as int == poi_size(us)
                }
        },
{
    let ghost t = text@;
    let ghost m0 = initial_line(t);
    proof {
        lemma_initial_line_text(t);
    }
    let mut line_parts: LineVec = Vec::new();
    line_parts.push(
        (text, Style {
            background: Color { r: 0, g: 0, b: 0, a: 0 },
            color: Color { r: 160, g: 160, b: 160, a: 255 },
        }),
    );
    proof {
        assert(line_view(line_parts) =~~= m0);
    }
    // Filter stage.
    match filter_h {
        Some(h) => {
            h.process_line(&mut line_parts);
        },
        None => {},
    }
    let ghost m1 = if filter_stage_active(us) {
        filter_result(
            m0,
            us.filter_term@,
            us.filter_match_case,
            us.filter_whole_word,
            us.filter_negative,
            us.filter_extended,
        )
    } else {
        m0
    };
    proof {
        assert(line_view(line_parts) == m1);
        lemma_filter_keeps_or_drops(
            m0,
            us.filter_term@,
            us.filter_match_case,
            us.filter_whole_word,
            us.filter_negative,
            us.filter_extended,
        );
        if m1 != m0 {
            assert(seg_texts(m1) =~= Seq::<Seq<char>>::empty());
        }
        assert(line_text(m1).len() <= usize::MAX);
    }
    // Structural-format stage.
    match format_h {
        Some(h) => {
            match h.process_line(&mut line_parts) {
                Ok(_) => {},
                Err(_) => {
                    proof {
                        assert(m1.len() != 1);
                        assert(run_line(us, t) is None);
                    }
                    return None;
                },
            }
        },
        None => {},
    }
    let ghost m2 = if format_stage_active(us) {
        format_result(
            m1,
            us.log_format.pattern@,
            us.log_format.pattern_coloring@,
            us.log_format.pattern_coloring_text@,
            us.log_format.pattern_coloring_text_use_original@,
        )
    } else {
        m1
    };
    proof {
        assert(line_view(line_parts) == m2);
        assert(line_text(m2).len() <= usize::MAX);
    }
    // Token highlight stage.
    match token_h {
        Some(h) => {
            h.process_line(&mut line_parts);
        },
        None => {},
    }
    let ghost m3 = if token_stage_active(us) {
        apply_tokens(
            m2,
            sort_tokens(keep_tokens(tokens_view(us.token_colors@))),
            Seq::<(int, int)>::empty(),
        )
    } else {
        m2
    };
    proof {
        if token_stage_active(us) {
            lemma_apply_tokens_conserves_text(
                m2,
                sort_tokens(keep_tokens(tokens_view(us.token_colors@))),
                Seq::<(int, int)>::empty(),
            );
        }
        assert(line_view(line_parts) == m3);
        assert(line_text(m3).len() <= usize::MAX);
    }
    // Search stage.
    let mut line_pois: Vec<PointOfInterest> = Vec::new();
    match search_h {
        Some(h) => {
            line_pois = h.process_line(&mut line_parts);
        },
        None => {},
    }
    let ghost m4 = if search_stage_active(us) {
        search_result(m3, us.search_term@, us.search_match_case, us.search_whole_word)
    } else {
        m3
    };
    proof {
        assert(line_view(line_parts) == m4);
        assert(run_line(us, t) == Some((m4, run_line(us, t)->Some_0.1)));
    }
    Some((line_parts, line_pois))
}

/// What a recompute's result must be for a given content and
/// configuration: None exactly when the run fails, and otherwise every
/// output pinned, element by element, to the run's outcome.
pub open spec fn recompute_post(
    r: Option<(Vec<String>, Vec<LineVec>, Vec<PointOfInterest>, VisibleLineOffsets)>,
    content: Seq<char>,
    us: UserSettings,
) -> bool {
    let d = drive_from(us, lines_of(content), 0, 0);
    match r {
        None => d is None,
        Some(out) => {
            &&& d is Some
            &&& out.1@.len() == d->Some_0.0.len()
            &&& (forall|k: int|
                0 <= k < out.1@.len() ==> line_view(#[trigger] out.1@[k]) == d->Some_0.0[k])
            &&& out.0@.len() == d->Some_0.0.len()
            &&& (forall|k: int|
                0 <= k < out.0@.len() ==> (#[trigger] out.0@[k])@ == decimal_of(k + 1))
            &&& out.2@.len() == d->Some_0.1.len()
            &&& (forall|k: int|
                0 <= k < out.2@.len() ==> {
                    let p = d->Some_0.1[k];
                    &&& (#[trigger] out.2@[k]).line as int == p.0
                    &&& out.2@[k].line_part_index as int == p.1
                    &&& out.2@[k].line_offset as int == p.2
                    &&& out.2@[k].line_point_size as int == p.3
                })
            &&& out.3.offsets@.len() == d->Some_0.2.len()
            &&& (forall|k: int|
                0 <= k < out.3.offsets@.len() ==> (#[trigger] out.3.offsets@[k]) as int
                    == d->Some_0.2[k])
        },
    }
}

/// Idempotence: a recompute is a function of the loaded content and the
/// configuration alone. Two runs over unchanged content and an unchanged
/// configuration succeed or fail together and agree on every rendered
/// segment, label, point of interest and offset.
pub proof fn lemma_recompute_deterministic(
    r1: Option<(Vec<String>, Vec<LineVec>, Vec<PointOfInterest>, VisibleLineOffsets)>,
    r2: Option<(Vec<String>, Vec<LineVec>, Vec<PointOfInterest>, VisibleLineOffsets)>,
    content: Seq<char>,
    us: UserSettings,
)
    requires
        recompute_post(r1, content, us),
        recompute_post(r2, content, us),
    ensures
        r1 is Some <==> r2 is Some,
        r1 matches Some(a) ==> {
            let b = r2->Some_0;
            &&& a.0@.len() == b.0@.len()
            &&& (forall|k: int| 0 <= k < a.0@.len() ==> (#[trigger] a.0@[k])@ == b.0@[k]@)
            &&& a.1@.len() == b.1@.len()
            &&& (forall|k: int|
                0 <= k < a.1@.len() ==> line_view(#[trigger] a.1@[k]) == line_view(b.1@[k]))
            &&& a.2@.len() == b.2@.len()
            &&& (forall|k: int| 0 <= k < a.2@.len() ==> (#[trigger] a.2@[k]) == b.2@[k])
            &&& a.3.offsets@.len() == b.3.offsets@.len()
            &&& (forall|k: int|
                0 <= k < a.3.offsets@.len() ==> (#[trigger] a.3.offsets@[k])
                    == b.3.offsets@[k])
        },
{
    if r1 is Some {
        let a = r1->Some_0;
        let b = r2->Some_0;
        assert forall|k: int| 0 <= k < a.2@.len() implies (#[trigger] a.2@[k]) == b.2@[k] by {
            let p = drive_from(us, lines_of(content), 0, 0)->Some_0.1[k];
            assert(a.2@[k].line == b.2@[k].line);
            assert(a.2@[k].line_part_index == b.2@[k].line_part_index);
            assert(a.2@[k].line_offset == b.2@[k].line_offset);
            assert(a.2@[k].line_point_size == b.2@[k].line_point_size);
        }
    }
}

/// The full recompute: splits the loaded content into lines, builds the
/// active handlers from the configuration, runs every line through them
/// in the fixed order, and assembles the visible representations, the
/// decimal line-number labels, the points of interest in line order, and
/// the visible-to-original line offsets. None exactly when some line
/// failed the structural-format stage.
#[verifier::loop_isolation(false)]
#[verifier::rlimit(60)]
pub fn recalculate_log_job(
    opened_file: &OpenedFileMetadata,
    user_settings: &UserSettings,
) -> (r: Option<(Vec<String>, Vec<LineVec>, Vec<PointOfInterest>, VisibleLineOffsets)>)
    ensures
        recompute_post(r, opened_file.content@, *user_settings),
{
    let ghost us = *user_settings;
    let ghost lv = lines_of(opened_file.content@);
    let lines = split_lines(opened_file.content.as_str());
    let filter_h = FilterLineHandler::new(user_settings);
    let format_h = LogFormatLineHandler::new(user_settings);
    let token_h = TokenHilightLineHandler::new(user_settings);
    let search_h = SearchLineHandler::new(user_settings);
    let mut jobs_log: Vec<LineVec> = Vec::new();
    let mut pois_all: Vec<PointOfInterest> = Vec::new();
    let mut offsets: Vec<usize> = Vec::new();
    let mut lines_visible: usize = 0;
    let ghost mut acc_r: Seq<Seq<(Seq<char>, Style)>> = Seq::empty();
    let ghost mut acc_p: Seq<(int, int, int, int)> = Seq::empty();
    let ghost mut acc_o: Seq<int> = Seq::empty();
    let mut li: usize = 0;
    while li < lines.len()
        invariant
            li <= lines@.len(),
            lines_visible <= li,
            jobs_log@.len() == acc_r.len(),
            forall|k: int| 0 <= k < acc_r.len() ==> line_view(#[trigger] jobs_log@[k]) == acc_r[k],
            pois_all@.len() == acc_p.len(),
            forall|k: int|
                0 <= k < acc_p.len() ==> {
                    let p = acc_p[k];
                    &&& (#[trigger] pois_all@[k]).line as int == p.0
                    &&& pois_all@[k].line_part_index as int == p.1
                    &&& pois_all@[k].line_offset as int == p.2
                    &&& pois_all@[k].line_point_size as int == p.3
                },
            offsets@.len() == acc_o.len(),
            forall|k: int| 0 <= k < acc_o.len() ==> (#[trigger] offsets@[k]) as int == acc_o[k],
            acc_r.len() == lines_visible,
            acc_o.len() == lines_visible,
            ({
                match drive_from(us, lv, li as int, lines_visible as int) {
                    None => drive_from(us, lv, 0, 0) is None,
                    Some(rest) => drive_from(us, lv, 0, 0) == Some(
                        ((acc_r + rest.0, acc_p + rest.1, acc_o + rest.2)),
                    ),
                }
            }),
        decreases lines@.len() - li,
    {
        let ghost t = lv[li as int];
        let text = lines[li].clone();
        let n_chars = text.as_str().unicode_len();
        proof {
            assert(text@ == t);
        }
        let step = run_line_exec(&filter_h, &format_h, &token_h, &search_h, text, Ghost(us));
        let (line_parts, line_pois) = match step {
            None => {
                proof {
                    assert(run_line(us, t) is None);
                    assert(drive_from(us, lv, li as int, lines_visible as int) is None);
                }
                return None;
            },
            Some(pr) => pr,
        };
        let ghost rl = run_line(us, t)->Some_0;
        let ghost m4 = rl.0;
        let ghost spans = rl.1;
        // Record this line's points of interest under its visible number.
        let ghost new_pois = pois_of(spans, lines_visible as int + 1, poi_size(us));
        let ghost acc_p0 = acc_p;
        let mut pk: usize = 0;
        while pk < line_pois.len()
            invariant
                pk <= line_pois@.len(),
                pois_all@.len() == acc_p0.len() + pk,
                forall|k: int|
                    0 <= k < acc_p0.len() ==> {
                        let p = acc_p0[k];
                        &&& (#[trigger] pois_all@[k]).line as int == p.0
                        &&& pois_all@[k].line_part_index as int == p.1
                        &&& pois_all@[k].line_offset as int == p.2
                        &&& pois_all@[k].line_point_size as int == p.3
                    },
                forall|k: int|
                    0 <= k < pk ==> {
                        let p = new_pois[k];
                        &&& (#[trigger] pois_all@[acc_p0.len() + k]).line as int == p.0
                        &&& pois_all@[acc_p0.len() + k].line_part_index as int == p.1
                        &&& pois_all@[acc_p0.len() + k].line_offset as int == p.2
                        &&& pois_all@[acc_p0.len() + k].line_point_size as int == p.3
                    },
            decreases line_pois@.len() - pk,
        {
            let p = line_pois[pk];
            pois_all.push(
                PointOfInterest {
                    line: lines_visible + 1,
                    line_part_index: p.line_part_index,
                    line_offset: p.line_offset,
                    line_point_size: p.line_point_size,
                },
            );
            pk = pk + 1;
        }
        proof {
            acc_p = acc_p0 + new_pois;
            assert(pois_all@.len() == acc_p.len());
            assert forall|k: int| 0 <= k < acc_p.len() implies {
                let p = acc_p[k];
                &&& (#[trigger] pois_all@[k]).line as int == p.0
                &&& pois_all@[k].line_part_index as int == p.1
                &&& pois_all@[k].line_offset as int == p.2
                &&& pois_all@[k].line_point_size as int == p.3
            } by {
                if k < acc_p0.len() {
                    assert(acc_p[k] == acc_p0[k]);
                } else {
                    let j = k - acc_p0.len();
                    assert(acc_p[k] == new_pois[j]);
                    assert(pois_all@[acc_p0.len() + j].line as int == new_pois[j].0);
                    assert(pois_all@[acc_p0.len() + j].line_part_index as int == new_pois[j].1);
                    assert(pois_all@[acc_p0.len() + j].line_offset as int == new_pois[j].2);
                    assert(pois_all@[acc_p0.len() + j].line_point_size as int == new_pois[j].3);
                    assert(acc_p0.len() + j == k);
                }
            }
        }
        // Visibility and outputs: the empty segment sequence is the
        // suppressed-line sentinel.
        let visible = line_parts.len() > 0;
        let ghost vis_pre = lines_visible as int;
        let ghost acc_r0 = acc_r;
        let ghost acc_o0 = acc_o;
        if visible {
            offsets.push(li - lines_visible);
            jobs_log.push(line_parts);
            proof {
                acc_r = acc_r.push(m4);
                acc_o = acc_o.push(li as int - vis_pre);
            }
            lines_visible = lines_visible + 1;
        }
        proof {
            let rest_pre = drive_from(us, lv, li as int, vis_pre);
            let rest_next = drive_from(us, lv, li as int + 1, lines_visible as int);
            assert(visible == (m4.len() > 0));
            match rest_next {
                None => {
                    assert(rest_pre is None);
                },
                Some(rest) => {
                    assert(rest_pre == Some(
                        (
                            (if visible {
                                seq![m4]
                            } else {
                                Seq::<Seq<(Seq<char>, Style)>>::empty()
                            }) + rest.0,
                            new_pois + rest.1,
                            (if visible {
                                seq![li as int - vis_pre]
                            } else {
                                Seq::<int>::empty()
                            }) + rest.2,
                        ),
                    ));
                    if visible {
                        assert(acc_r0 + (seq![m4] + rest.0) =~= acc_r + rest.0);
                        assert(acc_o0 + (seq![li as int - vis_pre] + rest.2) =~= acc_o + rest.2);
                    } else {
                        assert(acc_r0 + (Seq::<Seq<(Seq<char>, Style)>>::empty() + rest.0)
                            =~= acc_r + rest.0);
                        assert(acc_o0 + (Seq::<int>::empty() + rest.2) =~= acc_o + rest.2);
                    }
                    assert(acc_p0 + (new_pois + rest.1) =~= acc_p + rest.1);
                },
            }
        }
        li = li + 1;
    }
    proof {
        assert(drive_from(us, lv, li as int, lines_visible as int) == Some(
            ((
                Seq::<Seq<(Seq<char>, Style)>>::empty(),
                Seq::<(int, int, int, int)>::empty(),
                Seq::<int>::empty(),
            )),
        ));
        assert(acc_r + Seq::<Seq<(Seq<char>, Style)>>::empty() =~= acc_r);
        assert(acc_p + Seq::<(int, int, int, int)>::empty() =~= acc_p);
        assert(acc_o + Seq::<int>::empty() =~= acc_o);
    }
    // Line-number labels for the surviving lines.
    let mut labels: Vec<String> = Vec::new();
    let mut v: usize = 0;
    while v < lines_visible
        invariant
            v <= lines_visible,
            labels@.len() == v,
            forall|k: int| 0 <= k < v ==> (#[trigger] labels@[k])@ == decimal_of(k + 1),
        decreases lines_visible - v,
    {
        labels.push(line_number_label(v + 1));
        v = v + 1;
    }
    Some((labels, jobs_log, pois_all, VisibleLineOffsets { offsets }))
}

} // verus!
