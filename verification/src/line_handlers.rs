//! The four line handlers: filter, structural format, token highlight and
//! search. Each maps a styled line to a transformed styled line; the
//! search handler also reports the matches it found.

use vstd::prelude::*;

use crate::linevec::LineVec;
use crate::linevec::SplitPoint;
use crate::linevec::line_view;
use crate::linevec::line_text;
use crate::linevec::occurs_at;
use crate::linevec::match_at;
use crate::linevec::match_positions;
use crate::linevec::search_text;
use crate::linevec::fold_case;
use crate::linevec::find_spec;
use crate::linevec::linevec_find;
use crate::linevec::needle_at;
use crate::linevec::substring_string;
use crate::linevec::linevec_split;
use crate::linevec::apply_spans;
use crate::linevec::sort_by_start;
use crate::linevec::spans_view;
use crate::linevec::split_point_view;
use crate::style::Color;
use crate::style::Style;
use crate::style::contrast_text_color;
use crate::style::calculate_text_color_from_background_color;
use crate::linevec::lemma_apply_spans_conserves_text;
use crate::linevec::lemma_find_spec_spans_valid;
use crate::linevec::seg_texts;
use crate::linevec::texts_prefix_len;
use crate::linevec::table_models;
use crate::linevec::segment_table;
use crate::linevec::span_valid;
use crate::linevec::lemma_prefix_step;
use crate::linevec::lemma_prefix_le_total;
use crate::engine::PointOfInterest;
use crate::text::collect_chars;
use crate::text::to_lowercase;
use crate::text::char_is_whitespace;
use crate::text::is_space_char;
use crate::user_settings::UserSettings;

verus! {

/// Which stage of the pipeline a handler is.
#[derive(PartialEq, Eq, Structural)]
pub enum LineHandlerType {
    LogFormat,
    TokenHilight,
    Filter,
    Search,
}

/// The first offset at or after `from` where `sep` occurs in `s`.
pub open spec fn find_first(s: Seq<char>, sep: Seq<char>, from: int) -> Option<int>
    decreases s.len() - from,
    when sep.len() > 0
{
    if from < 0 || from + sep.len() > s.len() {
        None
    } else if occurs_at(s, sep, from) {
        Some(from)
    } else {
        find_first(s, sep, from + 1)
    }
}

/// `sep` occurs somewhere in `s`.
pub open spec fn contains_sub(s: Seq<char>, sep: Seq<char>) -> bool {
    sep.len() > 0 && find_first(s, sep, 0) is Some
}

/// A successful find names a real occurrence at or after `from`.
pub proof fn lemma_find_first_some(s: Seq<char>, sep: Seq<char>, from: int)
    requires
        sep.len() > 0,
        find_first(s, sep, from) is Some,
    ensures
        ({
            let i = find_first(s, sep, from)->Some_0;
            &&& from <= i
            &&& i + sep.len() <= s.len()
            &&& occurs_at(s, sep, i)
        }),
    decreases s.len() - from,
{
    if !(from < 0 || from + sep.len() > s.len()) && !occurs_at(s, sep, from) {
        lemma_find_first_some(s, sep, from + 1);
    }
}

/// The pieces of `s` between the non-overlapping occurrences of `sep`
/// from offset `from` on, leftmost occurrence first.
pub open spec fn split_on_from(s: Seq<char>, sep: Seq<char>, from: int) -> Seq<Seq<char>>
    decreases s.len() - from,
    when sep.len() > 0 && 0 <= from
    via split_on_from_decreases
{
    match find_first(s, sep, from) {
        None => seq![s.subrange(from, s.len() as int)],
        Some(i) => seq![s.subrange(from, i)] + split_on_from(s, sep, i + sep.len()),
    }
}

#[via_fn]
proof fn split_on_from_decreases(s: Seq<char>, sep: Seq<char>, from: int) {
    if find_first(s, sep, from) is Some {
        lemma_find_first_some(s, sep, from);
    }
}

/// The pieces of `s` between the occurrences of `sep`; a string with no
/// occurrence is one piece, and a trailing occurrence yields a trailing
/// empty piece.
pub open spec fn split_on(s: Seq<char>, sep: Seq<char>) -> Seq<Seq<char>> {
    split_on_from(s, sep, 0)
}

/// `s` without its leading whitespace.
pub open spec fn trim_front(s: Seq<char>) -> Seq<char>
    decreases s.len(),
{
    if s.len() > 0 && is_space_char(s[0]) {
        trim_front(s.drop_first())
    } else {
        s
    }
}

/// `s` without its trailing whitespace.
pub open spec fn trim_back(s: Seq<char>) -> Seq<char>
    decreases s.len(),
{
    if s.len() > 0 && is_space_char(s.last()) {
        trim_back(s.drop_last())
    } else {
        s
    }
}

/// `s` without leading and trailing whitespace.
pub open spec fn trim_of(s: Seq<char>) -> Seq<char> {
    trim_back(trim_front(s))
}

/// Each piece trimmed, and the pieces that are then empty dropped.
pub open spec fn trimmed_nonempty(parts: Seq<Seq<char>>) -> Seq<Seq<char>>
    decreases parts.len(),
{
    if parts.len() == 0 {
        Seq::empty()
    } else {
        let t = trim_of(parts.first());
        let rest = trimmed_nonempty(parts.drop_first());
        if t.len() > 0 {
            seq![t] + rest
        } else {
            rest
        }
    }
}

/// The AND connective of extended filter terms.
pub open spec fn amp_sep() -> Seq<char> {
    seq!['&', '&']
}

/// The OR connective of extended filter terms.
pub open spec fn bar_sep() -> Seq<char> {
    seq!['|', '|']
}

/// A term that mixes the two connectives: unsupported, and treated as a
/// configuration error rather than silently preferring one connective.
pub open spec fn mixed_connectives(term: Seq<char>) -> bool {
    contains_sub(term, amp_sep()) && contains_sub(term, bar_sep())
}

/// Whether the filter requires every sub-term to be present: only in
/// extended mode, and only when the term holds the AND connective.
pub open spec fn filter_is_and(term: Seq<char>, extended: bool) -> bool {
    extended && contains_sub(term, amp_sep())
}

/// The sub-terms a filter term stands for: in extended mode the term is
/// split on its connective and the pieces are trimmed, empty pieces
/// dropped; otherwise the whole term is the single sub-term. A term
/// mixing both connectives is configuration-invalid and never reaches
/// this split.
pub open spec fn filter_terms(term: Seq<char>, extended: bool) -> Seq<Seq<char>> {
    if extended {
        if contains_sub(term, amp_sep()) {
            trimmed_nonempty(split_on(term, amp_sep()))
        } else if contains_sub(term, bar_sep()) {
            trimmed_nonempty(split_on(term, bar_sep()))
        } else {
            seq![term]
        }
    } else {
        seq![term]
    }
}

/// The locator finds at least one occurrence of the term in the line.
pub open spec fn term_present(
    m: Seq<(Seq<char>, crate::style::Style)>,
    term: Seq<char>,
    match_case: bool,
    whole_word: bool,
) -> bool {
    match_positions(search_text(m, match_case), fold_case(term, match_case), whole_word).len() > 0
}

/// Whether the line matches the filter: every sub-term present under the
/// AND connective, at least one present otherwise.
pub open spec fn filter_matched(
    m: Seq<(Seq<char>, crate::style::Style)>,
    term: Seq<char>,
    match_case: bool,
    whole_word: bool,
    extended: bool,
) -> bool {
    let terms = filter_terms(term, extended);
    if filter_is_and(term, extended) {
        forall|k: int| 0 <= k < terms.len() ==> term_present(m, #[trigger] terms[k], match_case, whole_word)
    } else {
        exists|k: int| 0 <= k < terms.len() && term_present(m, #[trigger] terms[k], match_case, whole_word)
    }
}

/// What the filter leaves of a line: the line untouched when the match
/// outcome differs from the negate flag, the empty line otherwise. An
/// extended term mixing the two connectives is configuration-invalid and
/// filters nothing.
pub open spec fn filter_result(
    m: Seq<(Seq<char>, crate::style::Style)>,
    term: Seq<char>,
    match_case: bool,
    whole_word: bool,
    negative: bool,
    extended: bool,
) -> Seq<(Seq<char>, crate::style::Style)> {
    if extended && mixed_connectives(term) {
        m
    } else if filter_matched(m, term, match_case, whole_word, extended) != negative {
        m
    } else {
        Seq::empty()
    }
}

/// A sequence of owned strings as their character sequences.
pub open spec fn strings_view(v: Seq<String>) -> Seq<Seq<char>> {
    Seq::new(v.len(), |i: int| v[i]@)
}

/// The first occurrence of `sep` in `chars` at or after `from`.
pub(crate) fn find_first_in(chars: &Vec<char>, sep: &Vec<char>, from: usize) -> (r: Option<usize>)
    requires
        sep@.len() > 0,
    ensures
        match r {
            Some(i) => find_first(chars@, sep@, from as int) == Some(i as int),
            None => find_first(chars@, sep@, from as int) is None,
        },
{
    let n = chars.len();
    let sl = sep.len();
    if from > n || sl > n - from {
        return None;
    }
    let mut cur = from;
    while sl <= n - cur
        invariant
            from <= cur <= n,
            n == chars@.len(),
            sl == sep@.len(),
            sl > 0,
            find_first(chars@, sep@, from as int) == find_first(chars@, sep@, cur as int),
        decreases n - cur,
    {
        if needle_at(chars, sep, cur) {
            return Some(cur);
        }
        cur = cur + 1;
    }
    None
}

/// Dropping leading whitespace up to the first non-space character.
proof fn lemma_trim_front_skip(s: Seq<char>, a: int)
    requires
        0 <= a <= s.len(),
        forall|k: int| 0 <= k < a ==> is_space_char(#[trigger] s[k]),
        a < s.len() ==> !is_space_char(s[a]),
    ensures
        trim_front(s) == s.skip(a),
    decreases a,
{
    if a == 0 {
        assert(s.skip(0) =~= s);
    } else {
        assert(is_space_char(s[0]));
        lemma_trim_front_skip(s.drop_first(), a - 1);
        assert(s.drop_first().skip(a - 1) =~= s.skip(a));
    }
}

/// Dropping trailing whitespace down to the last non-space character.
proof fn lemma_trim_back_take(s: Seq<char>, b: int)
    requires
        0 <= b <= s.len(),
        forall|k: int| b <= k < s.len() ==> is_space_char(#[trigger] s[k]),
        b > 0 ==> !is_space_char(s[b - 1]),
    ensures
        trim_back(s) == s.take(b),
    decreases s.len() - b,
{
    if b == s.len() {
        assert(s.take(b) =~= s);
    } else {
        assert(is_space_char(s.last()));
        lemma_trim_back_take(s.drop_last(), b);
        assert(s.drop_last().take(b) =~= s.take(b));
    }
}

/// Appends the piece `from..to` of `term` trimmed, unless it trims to
/// nothing.
fn push_trimmed(out: &mut Vec<String>, term: &String, chars: &Vec<char>, from: usize, to: usize)
    requires
        chars@ == term@,
        from <= to <= term@.len(),
    ensures
        strings_view(final(out)@) == strings_view(old(out)@) + trimmed_nonempty(
            seq![term@.subrange(from as int, to as int)],
        ),
{
    let ghost piece = term@.subrange(from as int, to as int);
    let mut a = from;
    while a < to && char_is_whitespace(chars[a])
        invariant
            from <= a <= to <= chars@.len(),
            chars@ == term@,
            forall|k: int| from <= k < a ==> is_space_char(#[trigger] term@[k]),
        decreases to - a,
    {
        a = a + 1;
    }
    let mut b = to;
    while b > a && char_is_whitespace(chars[b - 1])
        invariant
            a <= b <= to,
            chars@ == term@,
            to <= chars@.len(),
            forall|k: int| b <= k < to ==> is_space_char(#[trigger] term@[k]),
        decreases b,
    {
        b = b - 1;
    }
    proof {
        assert(forall|k: int| 0 <= k < a - from ==> is_space_char(#[trigger] piece[k]));
        lemma_trim_front_skip(piece, a - from);
        let fronted = piece.skip(a - from);
        assert forall|k: int| b - a <= k < fronted.len() implies is_space_char(#[trigger] fronted[k]) by {
            assert(fronted[k] == term@[a + k]);
        }
        lemma_trim_back_take(fronted, b - a);
        assert(trim_front(piece) == fronted);
        assert(trim_back(fronted) == fronted.take(b - a));
        assert(trim_of(piece) == fronted.take(b - a));
        assert(fronted.take(b - a) =~= term@.subrange(a as int, b as int));
        assert(trim_of(piece) == term@.subrange(a as int, b as int));
        assert(seq![piece].first() == piece);
        assert(seq![piece].drop_first() =~= Seq::<Seq<char>>::empty());
        assert(trimmed_nonempty(Seq::<Seq<char>>::empty()) == Seq::<Seq<char>>::empty());
        if trim_of(piece).len() > 0 {
            assert(trimmed_nonempty(seq![piece]) =~= seq![trim_of(piece)]);
        } else {
            assert(trimmed_nonempty(seq![piece]) =~= Seq::<Seq<char>>::empty());
        }
    }
    if a < b {
        let t = substring_string(term, a, b);
        out.push(t);
        proof {
            assert(trimmed_nonempty(seq![piece]) =~= seq![trim_of(piece)]);
            assert(strings_view(out@) =~= strings_view(old(out)@) + trimmed_nonempty(seq![piece]));
        }
    } else {
        proof {
            assert(trim_of(piece).len() == 0);
            assert(trimmed_nonempty(seq![piece]) =~= Seq::<Seq<char>>::empty());
            assert(strings_view(out@) =~= strings_view(old(out)@) + trimmed_nonempty(seq![piece]));
        }
    }
}

/// Trimming distributes over concatenation of piece lists.
proof fn lemma_trimmed_nonempty_concat(x: Seq<Seq<char>>, y: Seq<Seq<char>>)
    ensures
        trimmed_nonempty(x + y) == trimmed_nonempty(x) + trimmed_nonempty(y),
    decreases x.len(),
{
    if x.len() == 0 {
        assert(x + y =~= y);
        assert(trimmed_nonempty(x) =~= Seq::<Seq<char>>::empty());
        assert(trimmed_nonempty(x) + trimmed_nonempty(y) =~= trimmed_nonempty(y));
    } else {
        assert((x + y).first() == x.first());
        assert((x + y).drop_first() =~= x.drop_first() + y);
        lemma_trimmed_nonempty_concat(x.drop_first(), y);
        if trim_of(x.first()).len() > 0 {
            assert(trimmed_nonempty(x + y) =~= trimmed_nonempty(x) + trimmed_nonempty(y));
        } else {
            assert(trimmed_nonempty(x + y) =~= trimmed_nonempty(x) + trimmed_nonempty(y));
        }
    }
}

/// Splits `term` on `sep`, trims each piece, and drops the pieces that
/// trim to nothing.
fn parse_sub_terms(term: &String, sep: &Vec<char>) -> (r: Vec<String>)
    requires
        sep@.len() > 0,
    ensures
        strings_view(r@) == trimmed_nonempty(split_on(term@, sep@)),
{
    let chars = collect_chars(term.as_str());
    let n = chars.len();
    let sl = sep.len();
    let mut out: Vec<String> = Vec::new();
    let mut cur: usize = 0;
    proof {
        assert(strings_view(out@) =~= Seq::<Seq<char>>::empty());
    }
    loop
        invariant_except_break
            cur <= n,
            n == term@.len(),
            chars@ == term@,
            sl == sep@.len(),
            sl > 0,
            strings_view(out@) + trimmed_nonempty(split_on_from(term@, sep@, cur as int))
                == trimmed_nonempty(split_on(term@, sep@)),
        ensures
            strings_view(out@) == trimmed_nonempty(split_on(term@, sep@)),
        decreases n - cur,
    {
        let found = find_first_in(&chars, sep, cur);
        match found {
            Some(i) => {
                proof {
                    lemma_find_first_some(term@, sep@, cur as int);
                    assert(split_on_from(term@, sep@, cur as int) == seq![
                        term@.subrange(cur as int, i as int),
                    ] + split_on_from(term@, sep@, i as int + sl as int));
                    lemma_trimmed_nonempty_concat(
                        seq![term@.subrange(cur as int, i as int)],
                        split_on_from(term@, sep@, i as int + sl as int),
                    );
                }
                let ghost pre_view = strings_view(out@);
                push_trimmed(&mut out, term, &chars, cur, i);
                proof {
                    assert(strings_view(out@) + trimmed_nonempty(
                        split_on_from(term@, sep@, i as int + sl as int),
                    ) =~= trimmed_nonempty(split_on(term@, sep@)));
                }
                cur = i + sl;
            },
            None => {
                proof {
                    assert(split_on_from(term@, sep@, cur as int) == seq![
                        term@.subrange(cur as int, n as int),
                    ]);
                }
                push_trimmed(&mut out, term, &chars, cur, n);
                proof {
                    assert(strings_view(out@) =~= trimmed_nonempty(split_on(term@, sep@)));
                }
                break ;
            },
        }
    }
    out
}

/// Whether an extended term holds both connectives.
fn term_has_mixed_connectives(term: &String) -> (r: bool)
    ensures
        r == mixed_connectives(term@),
{
    let mut amp: Vec<char> = Vec::new();
    amp.push('&');
    amp.push('&');
    let mut bar: Vec<char> = Vec::new();
    bar.push('|');
    bar.push('|');
    proof {
        assert(amp@ =~= amp_sep());
        assert(bar@ =~= bar_sep());
    }
    let chars = collect_chars(term.as_str());
    find_first_in(&chars, &amp, 0).is_some() && find_first_in(&chars, &bar, 0).is_some()
}

/// Decides whether a line survives at all; a dropped line is signalled
/// by clearing its segment sequence.
pub struct FilterLineHandler {
    pub filter_term: String,
    pub match_case: bool,
    pub whole_word: bool,
    pub negative: bool,
    pub extended: bool,
}

impl FilterLineHandler {
    /// A filter handler for the configured term; none when the term is
    /// empty or, in extended mode, mixes the two connectives, which is a
    /// configuration error.
    pub fn new(user_settings: &UserSettings) -> (r: Option<FilterLineHandler>)
        ensures
            r is Some <==> (user_settings.filter_term@.len() > 0 && !(user_settings.filter_extended
                && mixed_connectives(user_settings.filter_term@))),
            r matches Some(h) ==> h.filter_term@ == user_settings.filter_term@ && h.match_case
                == user_settings.filter_match_case && h.whole_word
                == user_settings.filter_whole_word && h.negative == user_settings.filter_negative
                && h.extended == user_settings.filter_extended,
    {
        if user_settings.filter_term.as_str().is_empty() {
            return None;
        }
        if user_settings.filter_extended && term_has_mixed_connectives(
            &user_settings.filter_term,
        ) {
            return None;
        }
        Some(
            FilterLineHandler {
                filter_term: user_settings.filter_term.clone(),
                match_case: user_settings.filter_match_case,
                whole_word: user_settings.filter_whole_word,
                negative: user_settings.filter_negative,
                extended: user_settings.filter_extended,
            },
        )
    }

    pub fn handler_type(&self) -> (t: LineHandlerType)
        ensures
            t == LineHandlerType::Filter,
    {
        LineHandlerType::Filter
    }

    pub fn is_active(&self) -> (r: bool)
        ensures
            r == (self.filter_term@.len() > 0),
    {
        !self.filter_term.as_str().is_empty()
    }

    /// Parses the filter term into its sub-terms and the connective kind.
    fn sub_terms(&self) -> (r: (bool, Vec<String>))
        ensures
            r.0 == filter_is_and(self.filter_term@, self.extended),
            strings_view(r.1@) == filter_terms(self.filter_term@, self.extended),
    {
        let mut is_and = false;
        let mut terms: Vec<String> = Vec::new();
        if self.extended {
            let mut amp: Vec<char> = Vec::new();
            amp.push('&');
            amp.push('&');
            let mut bar: Vec<char> = Vec::new();
            bar.push('|');
            bar.push('|');
            proof {
                assert(amp@ =~= amp_sep());
                assert(bar@ =~= bar_sep());
            }
            let chars = collect_chars(self.filter_term.as_str());
            if find_first_in(&chars, &amp, 0).is_some() {
                is_and = true;
                terms = parse_sub_terms(&self.filter_term, &amp);
            } else if find_first_in(&chars, &bar, 0).is_some() {
                terms = parse_sub_terms(&self.filter_term, &bar);
            } else {
                terms.push(self.filter_term.clone());
                proof {
                    assert(strings_view(terms@) =~= seq![self.filter_term@]);
                }
            }
        } else {
            terms.push(self.filter_term.clone());
            proof {
                assert(strings_view(terms@) =~= seq![self.filter_term@]);
            }
        }
        (is_and, terms)
    }

    /// Keeps the line when the match outcome differs from the negate
    /// flag, clears it otherwise. An extended term mixing the two
    /// connectives is configuration-invalid and leaves the line alone.
    pub fn process_line(&self, line: &mut LineVec)
        requires
            line_text(line_view(*old(line))).len() <= usize::MAX,
        ensures
            line_view(*final(line)) == filter_result(
                line_view(*old(line)),
                self.filter_term@,
                self.match_case,
                self.whole_word,
                self.negative,
                self.extended,
            ),
    {
        let ghost m = line_view(*line);
        if self.extended && term_has_mixed_connectives(&self.filter_term) {
            return ;
        }
        let ghost tms = filter_terms(self.filter_term@, self.extended);
        let (is_and, terms) = self.sub_terms();
        let mut matched = is_and;
        let mut k: usize = 0;
        while k < terms.len()
            invariant
                k <= terms@.len(),
                m == line_view(*line),
                line_text(m).len() <= usize::MAX,
                tms == filter_terms(self.filter_term@, self.extended),
                strings_view(terms@) == tms,
                is_and == filter_is_and(self.filter_term@, self.extended),
                is_and ==> matched == (forall|j: int|
                    0 <= j < k ==> term_present(m, #[trigger] tms[j], self.match_case,
                    self.whole_word,
                )),
                !is_and ==> matched == (exists|j: int|
                    0 <= j < k && term_present(m, #[trigger] tms[j], self.match_case,
                    self.whole_word,
                )),
            decreases terms@.len() - k,
        {
            let spans = linevec_find(line, terms[k].as_str(), self.match_case, self.whole_word);
            let present = spans.len() > 0;
            proof {
                assert(terms@[k as int]@ == tms[k as int]);
                assert(present == term_present(m, tms[k as int], self.match_case,
                    self.whole_word,
                ));
            }
            if is_and {
                matched = matched && present;
            } else {
                matched = matched || present;
            }
            k = k + 1;
        }
        proof {
            assert(matched == filter_matched(
                m,
                self.filter_term@,
                self.match_case,
                self.whole_word,
                self.extended,
            ));
        }
        if !matched {
            if !self.negative {
                line.clear();
                proof {
                    assert(line_view(*line) =~= Seq::<(Seq<char>, crate::style::Style)>::empty());
                }
            }
        } else {
            if self.negative {
                line.clear();
                proof {
                    assert(line_view(*line) =~= Seq::<(Seq<char>, crate::style::Style)>::empty());
                }
            }
        }
    }
}

/// The background of a search highlight.
pub open spec fn search_highlight_bg() -> Color {
    Color { r: 255, g: 255, b: 0, a: 255 }
}

/// The text color of a search highlight.
pub open spec fn search_highlight_fg() -> Color {
    Color { r: 0, g: 0, b: 0, a: 255 }
}

/// What the search stage leaves of a line: unchanged when the term does
/// not occur, every occurrence isolated with the highlight style
/// otherwise.
pub open spec fn search_result(
    m: Seq<(Seq<char>, Style)>,
    term: Seq<char>,
    match_case: bool,
    whole_word: bool,
) -> Seq<(Seq<char>, Style)> {
    let spans = find_spec(m, term, match_case, whole_word);
    if spans.len() == 0 {
        m
    } else {
        apply_spans(m, sort_by_start(spans), Some(search_highlight_bg()), Some(
            search_highlight_fg(),
        ))
    }
}

/// Locates a live search term, highlights every occurrence, and reports
/// each as a point of interest for navigation.
pub struct SearchLineHandler {
    pub search_term: String,
    pub match_case: bool,
    pub whole_word: bool,
}

impl SearchLineHandler {
    /// A search handler for the configured term; none when the term is
    /// empty.
    pub fn new(user_settings: &UserSettings) -> (r: Option<SearchLineHandler>)
        ensures
            r is Some <==> user_settings.search_term@.len() > 0,
            r matches Some(h) ==> h.search_term@ == user_settings.search_term@ && h.match_case
                == user_settings.search_match_case && h.whole_word
                == user_settings.search_whole_word,
    {
        if user_settings.search_term.as_str().is_empty() {
            return None;
        }
        Some(
            SearchLineHandler {
                search_term: user_settings.search_term.clone(),
                match_case: user_settings.search_match_case,
                whole_word: user_settings.search_whole_word,
            },
        )
    }

    pub fn handler_type(&self) -> (t: LineHandlerType)
        ensures
            t == LineHandlerType::Search,
    {
        LineHandlerType::Search
    }

    pub fn is_active(&self) -> (r: bool)
        ensures
            r == (self.search_term@.len() > 0),
    {
        !self.search_term.as_str().is_empty()
    }

    /// Highlights every occurrence of the search term and returns one
    /// point of interest per occurrence, line number left at zero for
    /// the driver to fill in.
    pub fn process_line(&self, line: &mut LineVec) -> (pois: Vec<PointOfInterest>)
        requires
            line_text(line_view(*old(line))).len() <= usize::MAX,
        ensures
            line_view(*final(line)) == search_result(
                line_view(*old(line)),
                self.search_term@,
                self.match_case,
                self.whole_word,
            ),
            pois@.len() == find_spec(
                line_view(*old(line)),
                self.search_term@,
                self.match_case,
                self.whole_word,
            ).len(),
            forall|k: int|
                0 <= k < pois@.len() ==> {
                    let sp = find_spec(
                        line_view(*old(line)),
                        self.search_term@,
                        self.match_case,
                        self.whole_word,
                    )[k];
                    &&& (#[trigger] pois@[k]).line == 0
                    &&& pois@[k].line_part_index as int == sp.0.0
                    &&& pois@[k].line_offset as int == sp.0.1
                    &&& pois@[k].line_point_size as int == fold_case(
                        self.search_term@,
                        self.match_case,
                    ).len()
                },
    {
        let ghost m = line_view(*line);
        let ghost fs = find_spec(m, self.search_term@, self.match_case, self.whole_word);
        let spans = linevec_find(line, self.search_term.as_str(), self.match_case,
            self.whole_word,
        );
        let mut pois: Vec<PointOfInterest> = Vec::new();
        if spans.len() == 0 {
            return pois;
        }
        let size = if self.match_case {
            self.search_term.as_str().unicode_len()
        } else {
            let low = to_lowercase(self.search_term.as_str());
            low.as_str().unicode_len()
        };
        let mut k: usize = 0;
        while k < spans.len()
            invariant
                k <= spans@.len(),
                fs == find_spec(m, self.search_term@, self.match_case, self.whole_word),
                spans@.len() == fs.len(),
                forall|j: int| 0 <= j < spans@.len() ==> split_point_view(#[trigger] spans@[j]) == fs[j],
                size as int == fold_case(self.search_term@, self.match_case).len(),
                pois@.len() == k,
                forall|j: int|
                    0 <= j < k ==> {
                        &&& (#[trigger] pois@[j]).line == 0
                        &&& pois@[j].line_part_index as int == fs[j].0.0
                        &&& pois@[j].line_offset as int == fs[j].0.1
                        &&& pois@[j].line_point_size == size
                    },
            decreases spans@.len() - k,
        {
            let sp = spans[k];
            pois.push(
                PointOfInterest {
                    line: 0,
                    line_part_index: sp.0.0,
                    line_offset: sp.0.1,
                    line_point_size: size,
                },
            );
            k = k + 1;
        }
        proof {
            assert(spans_view(spans@) =~= fs);
        }
        linevec_split(line, spans, Some(Color { r: 255, g: 255, b: 0, a: 255 }), Some(
            Color { r: 0, g: 0, b: 0, a: 255 },
        ));
        pois
    }
}

/// A token list as character sequences and colors.
pub open spec fn tokens_view(ts: Seq<(String, Color)>) -> Seq<(Seq<char>, Color)> {
    Seq::new(ts.len(), |i: int| (ts[i].0@, ts[i].1))
}

/// A token that highlights nothing: empty, or whitespace throughout.
pub open spec fn blank_token(t: Seq<char>) -> bool {
    forall|i: int| 0 <= i < t.len() ==> is_space_char(#[trigger] t[i])
}

/// The configured tokens with the blank ones dropped, order kept.
pub open spec fn keep_tokens(ts: Seq<(Seq<char>, Color)>) -> Seq<(Seq<char>, Color)>
    decreases ts.len(),
{
    if ts.len() == 0 {
        Seq::empty()
    } else {
        keep_tokens(ts.drop_last()) + (if blank_token(ts.last().0) {
            Seq::empty()
        } else {
            seq![ts.last()]
        })
    }
}

/// `x` placed just after the last token at least as long: where a stable
/// longest-first sort inserts a later token.
pub open spec fn insert_by_len(
    s: Seq<(Seq<char>, Color)>,
    x: (Seq<char>, Color),
) -> Seq<(Seq<char>, Color)>
    decreases s.len(),
{
    if s.len() == 0 {
        seq![x]
    } else if s.last().0.len() >= x.0.len() {
        s.push(x)
    } else {
        insert_by_len(s.drop_last(), x).push(s.last())
    }
}

/// The tokens in descending order of length, equal lengths kept in the
/// given order: a stable insertion sort, so a longer token is isolated
/// before a shorter token that might be its substring.
pub open spec fn sort_tokens(ts: Seq<(Seq<char>, Color)>) -> Seq<(Seq<char>, Color)>
    decreases ts.len(),
{
    if ts.len() == 0 {
        Seq::empty()
    } else {
        insert_by_len(sort_tokens(ts.drop_last()), ts.last())
    }
}

/// Inserting at a position bounded by at-least-as-long tokens on the
/// left and strictly shorter ones on the right is what `insert_by_len`
/// does.
proof fn lemma_insert_by_len_at(s: Seq<(Seq<char>, Color)>, x: (Seq<char>, Color), j: int)
    requires
        0 <= j <= s.len(),
        forall|l: int| j <= l < s.len() ==> (#[trigger] s[l]).0.len() < x.0.len(),
        j > 0 ==> s[j - 1].0.len() >= x.0.len(),
    ensures
        insert_by_len(s, x) == s.take(j) + seq![x] + s.skip(j),
    decreases s.len(),
{
    if j == s.len() {
        if s.len() == 0 {
            assert(insert_by_len(s, x) =~= s.take(j) + seq![x] + s.skip(j));
        } else {
            assert(insert_by_len(s, x) =~= s.take(j) + seq![x] + s.skip(j));
        }
    } else {
        assert(s[s.len() - 1].0.len() < x.0.len());
        lemma_insert_by_len_at(s.drop_last(), x, j);
        assert(insert_by_len(s.drop_last(), x).push(s.last()) =~= s.take(j) + seq![x] + s.skip(
            j,
        ));
    }
}

/// The character interval of the line's concatenated text that a
/// located span covers.
pub open spec fn span_interval(
    m: Seq<(Seq<char>, Style)>,
    sp: ((int, int), (int, int)),
) -> (int, int) {
    let texts = seg_texts(m);
    (texts_prefix_len(texts, sp.0.0) + sp.0.1, texts_prefix_len(texts, sp.1.0) + sp.1.1)
}

/// Two half-open intervals share a position.
pub open spec fn intervals_overlap(a: (int, int), b: (int, int)) -> bool {
    a.0 < b.1 && b.0 < a.1
}

/// The interval cuts into some already-claimed interval.
pub open spec fn claimed_by_any(iv: (int, int), claimed: Seq<(int, int)>) -> bool
    decreases claimed.len(),
{
    claimed.len() > 0 && (intervals_overlap(iv, claimed.first()) || claimed_by_any(
        iv,
        claimed.drop_first(),
    ))
}

/// An interval is claimed exactly when it overlaps some claimed
/// interval.
pub proof fn lemma_claimed_by_any_exists(iv: (int, int), claimed: Seq<(int, int)>)
    ensures
        claimed_by_any(iv, claimed) <==> exists|k: int|
            0 <= k < claimed.len() && intervals_overlap(iv, #[trigger] claimed[k]),
    decreases claimed.len(),
{
    if claimed.len() > 0 {
        lemma_claimed_by_any_exists(iv, claimed.drop_first());
        if claimed_by_any(iv, claimed) {
            if intervals_overlap(iv, claimed.first()) {
                assert(intervals_overlap(iv, claimed[0]));
            } else {
                let k = choose|k: int|
                    0 <= k < claimed.drop_first().len() && intervals_overlap(
                        iv,
                        #[trigger] claimed.drop_first()[k],
                    );
                assert(intervals_overlap(iv, claimed[k + 1]));
            }
        }
        if exists|k: int| 0 <= k < claimed.len() && intervals_overlap(iv, #[trigger] claimed[k]) {
            let k = choose|k: int|
                0 <= k < claimed.len() && intervals_overlap(iv, #[trigger] claimed[k]);
            if k > 0 {
                assert(intervals_overlap(iv, claimed.drop_first()[k - 1]));
            }
        }
    }
}

/// The spans whose text intervals avoid every claimed interval, in
/// order: a region claimed by an earlier token is not re-split by a
/// later one.
pub open spec fn unclaimed_spans(
    m: Seq<(Seq<char>, Style)>,
    spans: Seq<((int, int), (int, int))>,
    claimed: Seq<(int, int)>,
) -> Seq<((int, int), (int, int))>
    decreases spans.len(),
{
    if spans.len() == 0 {
        Seq::empty()
    } else {
        let rest = unclaimed_spans(m, spans.drop_first(), claimed);
        if claimed_by_any(span_interval(m, spans.first()), claimed) {
            rest
        } else {
            seq![spans.first()] + rest
        }
    }
}

/// The text intervals a list of spans covers.
pub open spec fn span_intervals(
    m: Seq<(Seq<char>, Style)>,
    spans: Seq<((int, int), (int, int))>,
) -> Seq<(int, int)> {
    Seq::new(spans.len(), |k: int| span_interval(m, spans[k]))
}

/// What one token does to a line, given the text intervals earlier
/// tokens claimed: its occurrences that avoid every claimed region are
/// isolated with the token's background and a contrasting text color,
/// and their own intervals are claimed in turn.
pub open spec fn apply_token(
    m: Seq<(Seq<char>, Style)>,
    tok: (Seq<char>, Color),
    claimed: Seq<(int, int)>,
) -> (Seq<(Seq<char>, Style)>, Seq<(int, int)>) {
    let spans = find_spec(m, tok.0, true, false);
    let kept = unclaimed_spans(m, spans, claimed);
    (
        apply_spans(m, sort_by_start(kept), Some(tok.1), Some(contrast_text_color(tok.1))),
        claimed + span_intervals(m, kept),
    )
}

/// The tokens applied in priority order, each over the previous token's
/// output, none re-splitting a region an earlier token claimed.
pub open spec fn apply_tokens(
    m: Seq<(Seq<char>, Style)>,
    toks: Seq<(Seq<char>, Color)>,
    claimed: Seq<(int, int)>,
) -> Seq<(Seq<char>, Style)>
    decreases toks.len(),
{
    if toks.len() == 0 {
        m
    } else {
        let step = apply_token(m, toks.first(), claimed);
        apply_tokens(step.0, toks.drop_first(), step.1)
    }
}

/// A list of machine-sized intervals as mathematical ones.
pub open spec fn intervals_view(v: Seq<(usize, usize)>) -> Seq<(int, int)> {
    Seq::new(v.len(), |k: int| (v[k].0 as int, v[k].1 as int))
}

/// Whether the interval `gs..ge` cuts into any recorded interval.
fn interval_claimed(claimed: &Vec<(usize, usize)>, gs: usize, ge: usize) -> (r: bool)
    ensures
        r == claimed_by_any((gs as int, ge as int), intervals_view(claimed@)),
{
    let ghost cv = intervals_view(claimed@);
    proof {
        lemma_claimed_by_any_exists((gs as int, ge as int), cv);
    }
    let mut j: usize = 0;
    while j < claimed.len()
        invariant
            j <= claimed@.len(),
            cv == intervals_view(claimed@),
            forall|l: int|
                0 <= l < j ==> !intervals_overlap((gs as int, ge as int), #[trigger] cv[l]),
        decreases claimed@.len() - j,
    {
        let c = claimed[j];
        if c.0 < ge && gs < c.1 {
            proof {
                assert(intervals_overlap((gs as int, ge as int), cv[j as int]));
                lemma_claimed_by_any_exists((gs as int, ge as int), cv);
            }
            return true;
        }
        j = j + 1;
    }
    proof {
        lemma_claimed_by_any_exists((gs as int, ge as int), cv);
    }
    false
}

/// Highlights each configured token's occurrences, longest tokens
/// first; a text region an earlier token claimed is left alone.
pub struct TokenHilightLineHandler {
    pub token_colors: Vec<(String, Color)>,
}

/// Whether a token's text is empty or whitespace throughout.
fn is_blank_token(tok: &String) -> (r: bool)
    ensures
        r == blank_token(tok@),
{
    let chars = collect_chars(tok.as_str());
    let n = chars.len();
    let mut i: usize = 0;
    while i < n
        invariant
            i <= n,
            n == tok@.len(),
            chars@ == tok@,
            forall|k: int| 0 <= k < i ==> is_space_char(#[trigger] tok@[k]),
        decreases n - i,
    {
        if !char_is_whitespace(chars[i]) {
            return false;
        }
        i = i + 1;
    }
    true
}

impl TokenHilightLineHandler {
    /// A token handler holding the configured tokens with blank ones
    /// dropped and the rest sorted longest first; none when the
    /// configured list is empty.
    pub fn new(user_settings: &UserSettings) -> (r: Option<TokenHilightLineHandler>)
        ensures
            r is Some <==> user_settings.token_colors@.len() > 0,
            r matches Some(h) ==> tokens_view(h.token_colors@) == sort_tokens(
                keep_tokens(tokens_view(user_settings.token_colors@)),
            ),
    {
        if user_settings.token_colors.len() == 0 {
            return None;
        }
        let ghost cfg = tokens_view(user_settings.token_colors@);
        let mut result: Vec<(String, Color)> = Vec::new();
        let mut i: usize = 0;
        proof {
            assert(cfg.take(0) =~= Seq::<(Seq<char>, Color)>::empty());
            assert(tokens_view(result@) =~= sort_tokens(keep_tokens(cfg.take(0))));
        }
        while i < user_settings.token_colors.len()
            invariant
                i <= user_settings.token_colors@.len(),
                cfg == tokens_view(user_settings.token_colors@),
                tokens_view(result@) == sort_tokens(keep_tokens(cfg.take(i as int))),
            decreases user_settings.token_colors@.len() - i,
        {
            let tok = user_settings.token_colors[i].0.clone();
            let color = user_settings.token_colors[i].1;
            let ghost x = (tok@, color);
            proof {
                assert(cfg.take(i as int + 1).drop_last() =~= cfg.take(i as int));
                assert(cfg.take(i as int + 1).last() == x);
            }
            if is_blank_token(&tok) {
                proof {
                    assert(keep_tokens(cfg.take(i as int + 1)) =~= keep_tokens(cfg.take(i as int)));
                }
            } else {
                let ghost sorted_pre = tokens_view(result@);
                proof {
                    assert(keep_tokens(cfg.take(i as int + 1)) =~= keep_tokens(
                        cfg.take(i as int),
                    ).push(x));
                    assert(keep_tokens(cfg.take(i as int)).push(x).drop_last() =~= keep_tokens(
                        cfg.take(i as int),
                    ));
                    assert(sort_tokens(keep_tokens(cfg.take(i as int + 1))) == insert_by_len(
                        sorted_pre,
                        x,
                    ));
                }
                let x_len = tok.as_str().unicode_len();
                let mut j = result.len();
                while j > 0 && result[j - 1].0.as_str().unicode_len() < x_len
                    invariant
                        j <= result@.len(),
                        sorted_pre == tokens_view(result@),
                        x_len == x.0.len(),
                        forall|l: int|
                            j <= l < sorted_pre.len() ==> (#[trigger] sorted_pre[l]).0.len()
                                < x.0.len(),
                    decreases j,
                {
                    j = j - 1;
                }
                result.insert(j, (tok, color));
                proof {
                    lemma_insert_by_len_at(sorted_pre, x, j as int);
                    assert(tokens_view(result@) =~= sorted_pre.take(j as int) + seq![x]
                        + sorted_pre.skip(j as int));
                }
            }
            i = i + 1;
        }
        proof {
            assert(cfg.take(user_settings.token_colors@.len() as int) =~= cfg);
        }
        Some(TokenHilightLineHandler { token_colors: result })
    }

    pub fn handler_type(&self) -> (t: LineHandlerType)
        ensures
            t == LineHandlerType::TokenHilight,
    {
        LineHandlerType::TokenHilight
    }

    pub fn is_active(&self) -> (r: bool)
        ensures
            r == (self.token_colors@.len() > 0),
    {
        self.token_colors.len() > 0
    }

    /// Applies each token in priority order over the output of the
    /// previous one; a region an earlier token claimed is skipped by a
    /// later token, so a longer token's highlight is never re-split by a
    /// shorter token inside it.
    #[verifier::loop_isolation(false)]
    #[verifier::rlimit(60)]
    pub fn process_line(&self, line: &mut LineVec)
        requires
            line_text(line_view(*old(line))).len() <= usize::MAX,
        ensures
            line_view(*final(line)) == apply_tokens(
                line_view(*old(line)),
                tokens_view(self.token_colors@),
                Seq::<(int, int)>::empty(),
            ),
    {
        let ghost m0 = line_view(*line);
        let ghost tv = tokens_view(self.token_colors@);
        let mut claimed: Vec<(usize, usize)> = Vec::new();
        let ghost mut claimed_g: Seq<(int, int)> = Seq::empty();
        let mut i: usize = 0;
        proof {
            assert(tv.skip(0) =~= tv);
            assert(claimed_g =~= intervals_view(claimed@));
        }
        while i < self.token_colors.len()
            invariant
                i <= self.token_colors@.len(),
                line_text(line_view(*line)) == line_text(m0),
                claimed_g == intervals_view(claimed@),
                apply_tokens(m0, tv, Seq::<(int, int)>::empty()) == apply_tokens(
                    line_view(*line),
                    tv.skip(i as int),
                    claimed_g,
                ),
            decreases self.token_colors@.len() - i,
        {
            let ghost cur = line_view(*line);
            let ghost tok = tv[i as int];
            let ghost claimed_pre = claimed_g;
            let spans = linevec_find(line, self.token_colors[i].0.as_str(), true, false);
            let ghost fs = find_spec(cur, tok.0, true, false);
            proof {
                assert(spans_view(spans@) =~= fs);
            }
            if spans.len() == 0 {
                proof {
                    assert(unclaimed_spans(cur, fs, claimed_g)
                        == Seq::<((int, int), (int, int))>::empty());
                    assert(sort_by_start(Seq::<((int, int), (int, int))>::empty())
                        == Seq::<((int, int), (int, int))>::empty());
                    assert(apply_token(cur, tok, claimed_g).0 == cur);
                    assert(span_intervals(cur, Seq::<((int, int), (int, int))>::empty())
                        =~= Seq::<(int, int)>::empty());
                    assert(apply_token(cur, tok, claimed_g).1 =~= claimed_g);
                }
            } else {
                let table = segment_table(line);
                proof {
                    lemma_find_spec_spans_valid(cur, tok.0, false);
                }
                let mut kept: Vec<SplitPoint> = Vec::new();
                let mut new_ivs: Vec<(usize, usize)> = Vec::new();
                let mut k: usize = 0;
                proof {
                    assert(spans_view(kept@) =~= Seq::<((int, int), (int, int))>::empty());
                    assert(intervals_view(new_ivs@) =~= Seq::<(int, int)>::empty());
                    assert(span_intervals(cur, spans_view(kept@)) =~= Seq::<(int, int)>::empty());
                    assert(fs.skip(0) =~= fs);
                    assert(spans_view(kept@) + unclaimed_spans(cur, fs, claimed_g)
                        =~= unclaimed_spans(cur, fs, claimed_g));
                }
                while k < spans.len()
                    invariant
                        k <= spans@.len(),
                        spans_view(kept@) + unclaimed_spans(cur, fs.skip(k as int), claimed_g)
                            == unclaimed_spans(cur, fs, claimed_g),
                        intervals_view(new_ivs@) == span_intervals(cur, spans_view(kept@)),
                    decreases spans@.len() - k,
                {
                    let sp = spans[k];
                    let ghost spv = split_point_view(sp);
                    let ghost texts = seg_texts(cur);
                    proof {
                        assert(spv == fs[k as int]);
                        assert(span_valid(cur, spv));
                        lemma_prefix_step(texts, spv.0.0);
                        lemma_prefix_le_total(texts, spv.0.0 + 1);
                        lemma_prefix_step(texts, spv.1.0);
                        lemma_prefix_le_total(texts, spv.1.0 + 1);
                    }
                    let gs = table[sp.0.0].0 + sp.0.1;
                    let ge = table[sp.1.0].0 + sp.1.1;
                    proof {
                        assert((gs as int, ge as int) == span_interval(cur, spv));
                        assert(fs.skip(k as int).first() == spv);
                        assert(fs.skip(k as int).drop_first() =~= fs.skip(k as int + 1));
                    }
                    let ghost kept_pre = spans_view(kept@);
                    let ghost nv_pre = new_ivs@;
                    if !interval_claimed(&claimed, gs, ge) {
                        kept.push(sp);
                        new_ivs.push((gs, ge));
                        proof {
                            assert(new_ivs@ == nv_pre.push((gs, ge)));
                            assert(spans_view(kept@) =~= kept_pre + seq![spv]);
                            assert(kept_pre + (seq![spv] + unclaimed_spans(
                                cur,
                                fs.skip(k as int + 1),
                                claimed_g,
                            )) =~= spans_view(kept@) + unclaimed_spans(
                                cur,
                                fs.skip(k as int + 1),
                                claimed_g,
                            ));
                            assert(intervals_view(new_ivs@) =~= span_intervals(
                                cur,
                                spans_view(kept@),
                            )) by {
                                assert(spans_view(kept@).len() == kept_pre.len() + 1);
                                assert(forall|l: int|
                                    0 <= l < kept_pre.len() ==> #[trigger] spans_view(kept@)[l]
                                        == kept_pre[l]);
                                assert(spans_view(kept@)[kept_pre.len() as int] == spv);
                                assert(forall|l: int|
                                    0 <= l < kept_pre.len() ==> #[trigger] intervals_view(
                                        nv_pre,
                                    )[l] == span_interval(cur, kept_pre[l]));
                                assert(forall|l: int|
                                    0 <= l < kept_pre.len() ==> #[trigger] intervals_view(
                                        new_ivs@,
                                    )[l] == intervals_view(nv_pre)[l]);
                                assert(intervals_view(new_ivs@)[kept_pre.len() as int] == (
                                    gs as int,
                                    ge as int,
                                ));
                            }
                        }
                    }
                    k = k + 1;
                }
                proof {
                    assert(fs.skip(spans@.len() as int) =~= Seq::<((int, int), (int, int))>::empty());
                    assert(unclaimed_spans(
                        cur,
                        Seq::<((int, int), (int, int))>::empty(),
                        claimed_g,
                    ) == Seq::<((int, int), (int, int))>::empty());
                    assert(spans_view(kept@) + Seq::<((int, int), (int, int))>::empty()
                        =~= spans_view(kept@));
                    assert(spans_view(kept@) == unclaimed_spans(cur, fs, claimed_g));
                }
                let color = self.token_colors[i].1;
                let text_color = calculate_text_color_from_background_color(color);
                let ghost kept_v = spans_view(kept@);
                linevec_split(line, kept, Some(color), Some(text_color));
                claimed.append(&mut new_ivs);
                proof {
                    lemma_apply_spans_conserves_text(
                        cur,
                        sort_by_start(kept_v),
                        Some(tok.1),
                        Some(contrast_text_color(tok.1)),
                    );
                    assert(line_view(*line) == apply_token(cur, tok, claimed_pre).0);
                    claimed_g = claimed_pre + span_intervals(cur, kept_v);
                    assert(claimed_g =~= intervals_view(claimed@));
                    assert(apply_token(cur, tok, claimed_pre).1 == claimed_g);
                }
            }
            proof {
                assert(line_view(*line) == apply_token(cur, tok, claimed_pre).0);
                assert(claimed_g == apply_token(cur, tok, claimed_pre).1);
                assert(tv.skip(i as int).first() == tok);
                assert(tv.skip(i as int).drop_first() =~= tv.skip(i as int + 1));
                assert(apply_tokens(cur, tv.skip(i as int), claimed_pre) == apply_tokens(
                    apply_token(cur, tok, claimed_pre).0,
                    tv.skip(i as int + 1),
                    apply_token(cur, tok, claimed_pre).1,
                ));
            }
            i = i + 1;
        }
        proof {
            assert(tv.skip(self.token_colors@.len() as int) =~= Seq::<(Seq<char>, Color)>::empty());
        }
    }
}

/// Whether a pattern is a valid regular expression: what regex::Regex::new
/// accepts, a function of the pattern alone.
pub uninterp spec fn pattern_valid(p: Seq<char>) -> bool;

/// What the capture groups of a valid pattern's earliest match in a text
/// are: for each group, in order and with the overall match first,
/// whether it participated and the text it captured (empty when it did
/// not). A function of pattern and text alone.
pub uninterp spec fn captures_of(p: Seq<char>, t: Seq<char>) -> Option<Seq<(bool, Seq<char>)>>;

/// A capture list as flags and character sequences.
pub open spec fn caps_view(v: Seq<(bool, String)>) -> Seq<(bool, Seq<char>)> {
    Seq::new(v.len(), |i: int| (v[i].0, v[i].1@))
}

/// Relies on regex::Regex::new: whether the pattern compiles is a
/// function of the pattern alone.
#[verifier::external_body]
fn regex_is_valid(pattern: &str) -> (r: bool)
    ensures
        r == pattern_valid(pattern@),
{
    regex::Regex::new(pattern).is_ok()
}

/// Relies on regex::Regex::new and regex::Regex::captures: the capture
/// groups of the earliest match depend on pattern and haystack alone; a
/// compiled pattern cannot carry its relation to the pattern text, so
/// the pattern is compiled here at each call. On a match the first
/// entry, the overall match, is always present.
#[verifier::external_body]
fn regex_captures(pattern: &str, text: &str) -> (r: Option<Vec<(bool, String)>>)
    ensures
        pattern_valid(pattern@) ==> (r is Some <==> captures_of(pattern@, text@) is Some),
        pattern_valid(pattern@) ==> (r matches Some(gs) ==> caps_view(gs@) == captures_of(
            pattern@,
            text@,
        )->Some_0),
        !pattern_valid(pattern@) ==> r is None,
        r matches Some(gs) ==> gs@.len() >= 1,
{
    match regex::Regex::new(pattern) {
        Ok(re) => re.captures(text).map(|caps| {
            caps.iter().map(|g| {
                match g {
                    Some(mm) => (true, mm.as_str().to_string()),
                    None => (false, String::new()),
                }
            }).collect()
        }),
        Err(_) => None,
    }
}

/// The total length of the text captured by the participating groups
/// before index `i`, group 0 excluded.
pub open spec fn groups_len_upto(gs: Seq<(bool, Seq<char>)>, i: int) -> int
    decreases i,
{
    if i <= 1 {
        0
    } else {
        groups_len_upto(gs, i - 1) + (if gs[i - 1].0 {
            gs[i - 1].1.len() as int
        } else {
            0
        })
    }
}

/// The colored segments a match turns into: one per participating
/// capture group from index `i` on, in order, styled with that group's
/// configured background and text color, or the original text color
/// where the keep-original flag is set. Groups that did not participate
/// yield no segment.
pub open spec fn format_segments(
    gs: Seq<(bool, Seq<char>)>,
    i: int,
    colors: Seq<Color>,
    text_colors: Seq<Color>,
    use_orig: Seq<bool>,
    orig_color: Color,
) -> Seq<(Seq<char>, Style)>
    decreases gs.len() - i,
{
    if i < 1 || i >= gs.len() {
        Seq::empty()
    } else {
        let rest = format_segments(gs, i + 1, colors, text_colors, use_orig, orig_color);
        if gs[i].0 {
            seq![
                (gs[i].1, Style {
                    background: colors[i - 1],
                    color: if use_orig[i - 1] {
                        orig_color
                    } else {
                        text_colors[i - 1]
                    },
                }),
            ] + rest
        } else {
            rest
        }
    }
}

/// What the structural-format stage leaves of a single-segment line:
/// unchanged when the pattern is invalid, does not match, or the group
/// count disagrees with the coloring configuration; otherwise the
/// match's groups as freshly styled segments, uncaptured text dropped.
/// A capture total beyond the machine's address range also leaves the
/// line unchanged.
pub open spec fn format_result(
    m: Seq<(Seq<char>, Style)>,
    pattern: Seq<char>,
    colors: Seq<Color>,
    text_colors: Seq<Color>,
    use_orig: Seq<bool>,
) -> Seq<(Seq<char>, Style)> {
    if !pattern_valid(pattern) {
        m
    } else {
        match captures_of(pattern, m[0].0) {
            None => m,
            Some(gs) => {
                if gs.len() - 1 != colors.len() || text_colors.len() != colors.len()
                    || use_orig.len() != colors.len() {
                    m
                } else if groups_len_upto(gs, gs.len() as int) > usize::MAX {
                    m
                } else {
                    format_segments(gs, 1, colors, text_colors, use_orig, m[0].1.color)
                }
            },
        }
    }
}

/// The error a handler reports when its input breaks a precondition it
/// cannot tolerate.
#[derive(Clone, Copy, Debug, PartialEq, Eq, Structural)]
pub enum LineHandlerError {
    /// The structural-format stage was handed a line that is no longer a
    /// single full segment.
    FragmentedInput,
}

/// Applies per-capture-group coloring to a line from a single whole-line
/// regular expression.
pub struct LogFormatLineHandler {
    pub pattern: String,
    pub pattern_coloring: Vec<Color>,
    pub pattern_coloring_text: Vec<Color>,
    pub pattern_coloring_text_use_original: Vec<bool>,
}

/// Clones a vector of colors.
fn copy_colors(v: &Vec<Color>) -> (r: Vec<Color>)
    ensures
        r@ == v@,
{
    let mut r: Vec<Color> = Vec::new();
    let mut i: usize = 0;
    while i < v.len()
        invariant
            i <= v@.len(),
            r@ == v@.take(i as int),
        decreases v@.len() - i,
    {
        r.push(v[i]);
        proof {
            assert(r@ =~= v@.take(i as int + 1));
        }
        i = i + 1;
    }
    proof {
        assert(v@.take(v@.len() as int) =~= v@);
    }
    r
}

/// Clones a vector of flags.
fn copy_flags(v: &Vec<bool>) -> (r: Vec<bool>)
    ensures
        r@ == v@,
{
    let mut r: Vec<bool> = Vec::new();
    let mut i: usize = 0;
    while i < v.len()
        invariant
            i <= v@.len(),
            r@ == v@.take(i as int),
        decreases v@.len() - i,
    {
        r.push(v[i]);
        proof {
            assert(r@ =~= v@.take(i as int + 1));
        }
        i = i + 1;
    }
    proof {
        assert(v@.take(v@.len() as int) =~= v@);
    }
    r
}

impl LogFormatLineHandler {
    /// A structural-format handler for the configured pattern; none when
    /// the pattern is empty, the coloring list is empty, or the pattern
    /// does not compile.
    pub fn new(user_settings: &UserSettings) -> (r: Option<LogFormatLineHandler>)
        ensures
            r is Some <==> (user_settings.log_format.pattern@.len() > 0
                && user_settings.log_format.pattern_coloring@.len() > 0 && pattern_valid(
                user_settings.log_format.pattern@,
            )),
            r matches Some(h) ==> h.pattern@ == user_settings.log_format.pattern@
                && h.pattern_coloring@ == user_settings.log_format.pattern_coloring@
                && h.pattern_coloring_text@ == user_settings.log_format.pattern_coloring_text@
                && h.pattern_coloring_text_use_original@
                == user_settings.log_format.pattern_coloring_text_use_original@,
    {
        if user_settings.log_format.pattern.as_str().is_empty()
            || user_settings.log_format.pattern_coloring.len() == 0 {
            return None;
        }
        if !regex_is_valid(user_settings.log_format.pattern.as_str()) {
            return None;
        }
        Some(
            LogFormatLineHandler {
                pattern: user_settings.log_format.pattern.clone(),
                pattern_coloring: copy_colors(&user_settings.log_format.pattern_coloring),
                pattern_coloring_text: copy_colors(&user_settings.log_format.pattern_coloring_text),
                pattern_coloring_text_use_original: copy_flags(
                    &user_settings.log_format.pattern_coloring_text_use_original,
                ),
            },
        )
    }

    pub fn handler_type(&self) -> (t: LineHandlerType)
        ensures
            t == LineHandlerType::LogFormat,
    {
        LineHandlerType::LogFormat
    }

    pub fn is_active(&self) -> (r: bool)
        ensures
            r == (self.pattern_coloring@.len() > 0 && self.pattern@.len() > 0),
    {
        self.pattern_coloring.len() > 0 && !self.pattern.as_str().is_empty()
    }

    /// Colors a still-unfragmented line by its capture groups; a
    /// fragmented input is reported as an error instead of being
    /// misread, and a pattern or coloring mismatch leaves the line
    /// unchanged.
    #[verifier::loop_isolation(false)]
    pub fn process_line(&self, line: &mut LineVec) -> (r: Result<(), LineHandlerError>)
        requires
            line_text(line_view(*old(line))).len() <= usize::MAX,
        ensures
            r is Err <==> old(line)@.len() != 1,
            r is Err ==> *final(line) == *old(line),
            r is Ok ==> line_view(*final(line)) == format_result(
                line_view(*old(line)),
                self.pattern@,
                self.pattern_coloring@,
                self.pattern_coloring_text@,
                self.pattern_coloring_text_use_original@,
            ),
            line_text(line_view(*final(line))).len() <= usize::MAX,
    {
        if line.len() != 1 {
            return Err(LineHandlerError::FragmentedInput);
        }
        let ghost m = line_view(*line);
        let caps = regex_captures(self.pattern.as_str(), line[0].0.as_str());
        proof {
            assert(m[0].0 == line@[0].0@);
        }
        match caps {
            None => Ok(()),
            Some(gs) => {
                let ghost gsv = caps_view(gs@);
                let n_groups = gs.len() - 1;
                if n_groups != self.pattern_coloring.len() || self.pattern_coloring_text.len()
                    != self.pattern_coloring.len() || self.pattern_coloring_text_use_original.len()
                    != self.pattern_coloring.len() {
                    return Ok(());
                }
                let orig_color = line[0].1.color;
                let mut out: LineVec = Vec::new();
                let mut total: usize = 0;
                let mut i: usize = 1;
                proof {
                    assert(line_view(out) =~= Seq::<(Seq<char>, Style)>::empty());
                }
                while i < gs.len()
                    invariant
                        1 <= i <= gs@.len(),
                        gsv == caps_view(gs@),
                        total == groups_len_upto(gsv, i as int),
                        line_text(line_view(out)).len() == total,
                        line_view(out) + format_segments(
                            gsv,
                            i as int,
                            self.pattern_coloring@,
                            self.pattern_coloring_text@,
                            self.pattern_coloring_text_use_original@,
                            orig_color,
                        ) == format_segments(
                            gsv,
                            1,
                            self.pattern_coloring@,
                            self.pattern_coloring_text@,
                            self.pattern_coloring_text_use_original@,
                            orig_color,
                        ),
                        self.pattern_coloring@.len() == gsv.len() - 1,
                        self.pattern_coloring_text@.len() == gsv.len() - 1,
                        self.pattern_coloring_text_use_original@.len() == gsv.len() - 1,
                    decreases gs@.len() - i,
                {
                    if gs[i].0 {
                        let g_len = gs[i].1.as_str().unicode_len();
                        let new_total = match total.checked_add(g_len) {
                            Some(t) => t,
                            None => {
                                proof {
                                    lemma_groups_len_upto_mono(gsv, i as int + 1, gsv.len() as int);
                                }
                                return Ok(());
                            },
                        };
                        let text = gs[i].1.clone();
                        let color = if self.pattern_coloring_text_use_original[i - 1] {
                            orig_color
                        } else {
                            self.pattern_coloring_text[i - 1]
                        };
                        let ghost pre = out;
                        out.push((text, Style { background: self.pattern_coloring[i - 1], color }));
                        total = new_total;
                        proof {
                            assert(line_view(out) =~~= line_view(pre).push(
                                (gsv[i as int].1, Style {
                                    background: self.pattern_coloring@[i as int - 1],
                                    color: if self.pattern_coloring_text_use_original@[i as int
                                        - 1] {
                                        orig_color
                                    } else {
                                        self.pattern_coloring_text@[i as int - 1]
                                    },
                                }),
                            ));
                            lemma_line_text_push(
                                line_view(pre),
                                gsv[i as int].1,
                                line_view(out).last().1,
                            );
                        }
                    }
                    proof {
                        assert(format_segments(
                            gsv,
                            i as int,
                            self.pattern_coloring@,
                            self.pattern_coloring_text@,
                            self.pattern_coloring_text_use_original@,
                            orig_color,
                        ) == (if gsv[i as int].0 {
                            seq![
                                (gsv[i as int].1, Style {
                                    background: self.pattern_coloring@[i as int - 1],
                                    color: if self.pattern_coloring_text_use_original@[i as int
                                        - 1] {
                                        orig_color
                                    } else {
                                        self.pattern_coloring_text@[i as int - 1]
                                    },
                                }),
                            ]
                        } else {
                            Seq::<(Seq<char>, Style)>::empty()
                        }) + format_segments(
                            gsv,
                            i as int + 1,
                            self.pattern_coloring@,
                            self.pattern_coloring_text@,
                            self.pattern_coloring_text_use_original@,
                            orig_color,
                        ));
                    }
                    i = i + 1;
                }
                proof {
                    assert(format_segments(
                        gsv,
                        gsv.len() as int,
                        self.pattern_coloring@,
                        self.pattern_coloring_text@,
                        self.pattern_coloring_text_use_original@,
                        orig_color,
                    ) == Seq::<(Seq<char>, Style)>::empty());
                }
                *line = out;
                Ok(())
            },
        }
    }
}

/// Pushing one segment adds exactly its text to the line's text.
pub proof fn lemma_line_text_push(m: Seq<(Seq<char>, Style)>, t: Seq<char>, st: Style)
    ensures
        line_text(m.push((t, st))) == line_text(m) + t,
{
    assert(crate::linevec::seg_texts(m.push((t, st))) =~= crate::linevec::seg_texts(m).push(t));
    crate::linevec::seg_texts(m).lemma_flatten_push(t);
}

/// The captured total grows with the index range.
pub proof fn lemma_groups_len_upto_mono(gs: Seq<(bool, Seq<char>)>, i: int, j: int)
    requires
        i <= j,
    ensures
        groups_len_upto(gs, i) <= groups_len_upto(gs, j),
    decreases j - i,
{
    if i < j {
        lemma_groups_len_upto_mono(gs, i, j - 1);
    }
}

/// Text conservation: the filter never edits text; it only ever replaces
/// the sequence with the empty one or leaves it untouched.
pub proof fn lemma_filter_keeps_or_drops(
    m: Seq<(Seq<char>, Style)>,
    term: Seq<char>,
    match_case: bool,
    whole_word: bool,
    negative: bool,
    extended: bool,
)
    ensures
        filter_result(m, term, match_case, whole_word, negative, extended) == m || filter_result(
            m,
            term,
            match_case,
            whole_word,
            negative,
            extended,
        ) == Seq::<(Seq<char>, Style)>::empty(),
{
}

/// Text conservation: one token pass re-partitions and re-styles the
/// line but keeps the concatenation of its segment texts.
pub proof fn lemma_apply_token_conserves_text(
    m: Seq<(Seq<char>, Style)>,
    tok: (Seq<char>, Color),
    claimed: Seq<(int, int)>,
)
    ensures
        line_text(apply_token(m, tok, claimed).0) == line_text(m),
{
    let spans = find_spec(m, tok.0, true, false);
    let kept = unclaimed_spans(m, spans, claimed);
    crate::linevec::lemma_apply_spans_conserves_text(
        m,
        crate::linevec::sort_by_start(kept),
        Some(tok.1),
        Some(contrast_text_color(tok.1)),
    );
}

/// Text conservation: the whole token highlight stage keeps the
/// concatenation of segment texts.
pub proof fn lemma_apply_tokens_conserves_text(
    m: Seq<(Seq<char>, Style)>,
    toks: Seq<(Seq<char>, Color)>,
    claimed: Seq<(int, int)>,
)
    ensures
        line_text(apply_tokens(m, toks, claimed)) == line_text(m),
    decreases toks.len(),
{
    if toks.len() > 0 {
        let step = apply_token(m, toks.first(), claimed);
        lemma_apply_token_conserves_text(m, toks.first(), claimed);
        lemma_apply_tokens_conserves_text(step.0, toks.drop_first(), step.1);
    }
}

/// Text conservation: the search stage keeps the concatenation of
/// segment texts.
pub proof fn lemma_search_conserves_text(
    m: Seq<(Seq<char>, Style)>,
    term: Seq<char>,
    match_case: bool,
    whole_word: bool,
)
    ensures
        line_text(search_result(m, term, match_case, whole_word)) == line_text(m),
{
    let spans = find_spec(m, term, match_case, whole_word);
    if spans.len() != 0 {
        crate::linevec::lemma_apply_spans_conserves_text(
            m,
            crate::linevec::sort_by_start(spans),
            Some(search_highlight_bg()),
            Some(search_highlight_fg()),
        );
    }
}

/// A capture-group count that disagrees with the coloring configuration
/// leaves the line completely unchanged; the mismatch is treated as
/// "feature inapplicable", never as an error.
pub proof fn lemma_format_mismatch_unchanged(
    m: Seq<(Seq<char>, Style)>,
    pattern: Seq<char>,
    colors: Seq<Color>,
    text_colors: Seq<Color>,
    use_orig: Seq<bool>,
)
    requires
        pattern_valid(pattern),
        captures_of(pattern, m[0].0) matches Some(gs) && gs.len() - 1 != colors.len(),
    ensures
        format_result(m, pattern, colors, text_colors, use_orig) == m,
{
}

/// The negate flag inverts the kept set exactly: whatever the match
/// outcome, negated filtering keeps precisely the lines plain filtering
/// drops, and drops precisely the lines it keeps.
pub proof fn lemma_filter_negate_inverts(
    m: Seq<(Seq<char>, Style)>,
    term: Seq<char>,
    match_case: bool,
    whole_word: bool,
    extended: bool,
)
    requires
        !(extended && mixed_connectives(term)),
    ensures
        filter_result(m, term, match_case, whole_word, true, extended) == (
        if filter_matched(m, term, match_case, whole_word, extended) {
            Seq::<(Seq<char>, Style)>::empty()
        } else {
            m
        }),
        filter_result(m, term, match_case, whole_word, false, extended) == (
        if filter_matched(m, term, match_case, whole_word, extended) {
            m
        } else {
            Seq::<(Seq<char>, Style)>::empty()
        }),
{
}

/// An accepted occurrence of the case-folded sub-term exists in the
/// case-folded line text.
pub open spec fn sub_term_occurs(
    m: Seq<(Seq<char>, Style)>,
    sub: Seq<char>,
    match_case: bool,
    whole_word: bool,
) -> bool {
    exists|i: int| match_at(search_text(m, match_case), fold_case(sub, match_case), whole_word, i)
}

/// Under the AND connective a line matches exactly when every sub-term
/// occurs in it; under the OR connective (or with a single term) exactly
/// when at least one does. Occurrence means an accepted match of the
/// case-folded sub-term exists in the case-folded line text. Sub-terms
/// that case folding erases are left out.
pub proof fn lemma_filter_and_or(
    m: Seq<(Seq<char>, Style)>,
    term: Seq<char>,
    match_case: bool,
    whole_word: bool,
    extended: bool,
)
    requires
        forall|k: int|
            0 <= k < filter_terms(term, extended).len() ==> fold_case(
                #[trigger] filter_terms(term, extended)[k],
                match_case,
            ).len() > 0,
    ensures
        filter_is_and(term, extended) ==> (filter_matched(m, term, match_case, whole_word, extended)
            <==> (forall|k: int|
            0 <= k < filter_terms(term, extended).len() ==> sub_term_occurs(
                m,
                #[trigger] filter_terms(term, extended)[k],
                match_case,
                whole_word,
            ))),
        !filter_is_and(term, extended) ==> (filter_matched(m, term, match_case, whole_word,
        extended) <==> (exists|k: int|
            0 <= k < filter_terms(term, extended).len() && sub_term_occurs(
                m,
                #[trigger] filter_terms(term, extended)[k],
                match_case,
                whole_word,
            ))),
{
    let terms = filter_terms(term, extended);
    assert forall|k: int| 0 <= k < terms.len() implies (term_present(
        m,
        #[trigger] terms[k],
        match_case,
        whole_word,
    ) == sub_term_occurs(m, terms[k], match_case, whole_word)) by {
        let needle = fold_case(terms[k], match_case);
        crate::linevec::lemma_term_presence(search_text(m, match_case), needle, whole_word);
    }
}

} // verus!
