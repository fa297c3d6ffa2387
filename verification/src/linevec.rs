//! The styled-segment representation of one line, the span locator that
//! finds a needle across segment boundaries, and the span splitter that
//! isolates located spans into their own styled segments.

use vstd::prelude::*;

use crate::style::Color;
use crate::style::Style;
use crate::text::char_is_alphanumeric;
use crate::text::collect_chars;
use crate::text::append_chars;
use crate::text::is_word_char;
use crate::text::lowercase_of;
use crate::text::to_lowercase;

verus! {

/// One line as an ordered sequence of (text, style) segments; concatenating
/// the texts, in order, gives the line's content. The empty sequence stands
/// for a line suppressed by the filter.
pub type LineVec = Vec<(String, Style)>;

/// A boundary inside a line: (segment index, character offset inside that
/// segment's text).
pub type SplitPointPartial = (usize, usize);

/// A located span: its start boundary and its exclusive end boundary.
pub type SplitPoint = (SplitPointPartial, SplitPointPartial);

/// The mathematical model of a line: each segment as its character sequence
/// and style.
pub open spec fn line_view(line: LineVec) -> Seq<(Seq<char>, Style)> {
    line@.map_values(|p: (String, Style)| (p.0@, p.1))
}

/// The texts of a line's segments, in order.
pub open spec fn seg_texts(m: Seq<(Seq<char>, Style)>) -> Seq<Seq<char>> {
    m.map_values(|p: (Seq<char>, Style)| p.0)
}

/// The text a line stands for: the segment texts concatenated in order.
pub open spec fn line_text(m: Seq<(Seq<char>, Style)>) -> Seq<char> {
    seg_texts(m).flatten()
}

/// A text under the locator's case rule: unchanged when matching case,
/// lowercased otherwise.
pub open spec fn fold_case(s: Seq<char>, match_case: bool) -> Seq<char> {
    if match_case {
        s
    } else {
        lowercase_of(s)
    }
}

/// Every segment text folded by the case rule, in order.
pub open spec fn folded_texts(m: Seq<(Seq<char>, Style)>, match_case: bool) -> Seq<Seq<char>> {
    seg_texts(m).map_values(|t: Seq<char>| fold_case(t, match_case))
}

/// The concatenation the locator scans: every segment text folded by the
/// case rule, in order.
pub open spec fn search_text(m: Seq<(Seq<char>, Style)>, match_case: bool) -> Seq<char> {
    folded_texts(m, match_case).flatten()
}

/// The needle occurs in `text` at offset `i`.
pub open spec fn occurs_at(text: Seq<char>, needle: Seq<char>, i: int) -> bool {
    &&& 0 <= i
    &&& i + needle.len() <= text.len()
    &&& text.subrange(i, i + needle.len() as int) == needle
}

/// Neither the character just before offset `i` nor the one just after
/// offset `i + len` is alphanumeric; off the ends of the text counts as a
/// boundary.
pub open spec fn word_bounded(text: Seq<char>, len: int, i: int) -> bool {
    &&& (i == 0 || !is_word_char(text[i - 1]))
    &&& (i + len == text.len() || !is_word_char(text[i + len]))
}

/// The needle occurs at `i`, and, under whole-word search, sits on word
/// boundaries.
pub open spec fn match_at(text: Seq<char>, needle: Seq<char>, whole_word: bool, i: int) -> bool {
    &&& occurs_at(text, needle, i)
    &&& (whole_word ==> word_bounded(text, needle.len() as int, i))
}

/// The offsets the locator's scan accepts from `from` on: the scan takes
/// the first accepted match, resumes right after its end, and moves one
/// character forward past a rejected raw position.
pub open spec fn match_positions_from(
    text: Seq<char>,
    needle: Seq<char>,
    whole_word: bool,
    from: int,
) -> Seq<int>
    decreases text.len() - from,
    when needle.len() > 0
{
    if from < 0 || from + needle.len() > text.len() {
        Seq::empty()
    } else if match_at(text, needle, whole_word, from) {
        seq![from] + match_positions_from(text, needle, whole_word, from + needle.len() as int)
    } else {
        match_positions_from(text, needle, whole_word, from + 1)
    }
}

/// All non-overlapping accepted matches of the needle, in order. An empty
/// needle yields none.
pub open spec fn match_positions(text: Seq<char>, needle: Seq<char>, whole_word: bool) -> Seq<int> {
    if needle.len() == 0 {
        Seq::empty()
    } else {
        match_positions_from(text, needle, whole_word, 0)
    }
}

/// The segment holding text offset `pos`, as (segment index, offset inside
/// the segment), treating `pos` as a start boundary: the segment whose
/// half-open text range contains `pos`. None when no segment does.
pub open spec fn locate_start(texts: Seq<Seq<char>>, pos: int) -> Option<(int, int)>
    decreases texts.len(),
{
    if texts.len() == 0 {
        None
    } else if 0 <= pos < texts[0].len() {
        Some((0int, pos))
    } else {
        match locate_start(texts.drop_first(), pos - texts[0].len()) {
            None => None,
            Some(pr) => Some((pr.0 + 1, pr.1)),
        }
    }
}

/// The segment holding text offset `pos` as an exclusive end boundary: the
/// segment whose text range's half-open interval has `pos` strictly after
/// its start and at or before its end. None when no segment does.
pub open spec fn locate_end(texts: Seq<Seq<char>>, pos: int) -> Option<(int, int)>
    decreases texts.len(),
{
    if texts.len() == 0 {
        None
    } else if 0 < pos <= texts[0].len() {
        Some((0int, pos))
    } else {
        match locate_end(texts.drop_first(), pos - texts[0].len()) {
            None => None,
            Some(pr) => Some((pr.0 + 1, pr.1)),
        }
    }
}

/// A boundary, with (0, 0) standing in where no segment holds the offset.
pub open spec fn boundary_or_default(r: Option<(int, int)>) -> (int, int) {
    match r {
        None => (0int, 0int),
        Some(pr) => pr,
    }
}

/// The span a match occupies: its start offset resolved as a start
/// boundary and its end offset resolved as an end boundary, both against
/// the unfolded segment texts.
pub open spec fn span_for(texts: Seq<Seq<char>>, pos: int, len: int) -> ((int, int), (int, int)) {
    (boundary_or_default(locate_start(texts, pos)), boundary_or_default(
        locate_end(texts, pos + len),
    ))
}

/// A split point as a pair of mathematical boundaries.
pub open spec fn split_point_view(sp: SplitPoint) -> ((int, int), (int, int)) {
    ((sp.0.0 as int, sp.0.1 as int), (sp.1.0 as int, sp.1.1 as int))
}

/// Everything the locator returns for a line and a needle: each accepted
/// match of the case-folded needle in the case-folded concatenation,
/// resolved to segment boundaries.
pub open spec fn find_spec(
    m: Seq<(Seq<char>, Style)>,
    term: Seq<char>,
    match_case: bool,
    whole_word: bool,
) -> Seq<((int, int), (int, int))> {
    let needle = fold_case(term, match_case);
    match_positions(search_text(m, match_case), needle, whole_word).map_values(
        |p: int| span_for(seg_texts(m), p, needle.len() as int),
    )
}

/// The length of the concatenation of the first `i` texts.
pub open spec fn texts_prefix_len(texts: Seq<Seq<char>>, i: int) -> int {
    texts.take(i).flatten().len() as int
}

/// Taking one more text extends the flattened prefix by exactly that text.
pub proof fn lemma_prefix_step(texts: Seq<Seq<char>>, i: int)
    requires
        0 <= i < texts.len(),
    ensures
        texts.take(i + 1).flatten() == texts.take(i).flatten() + texts[i],
{
    texts.lemma_take_succ_push(i);
    texts.take(i).lemma_flatten_push(texts[i]);
    assert(texts.take(i + 1).flatten() =~= texts.take(i).flatten() + texts[i]);
}

/// Every prefix of the concatenation is no longer than the whole.
pub proof fn lemma_prefix_le_total(texts: Seq<Seq<char>>, i: int)
    requires
        0 <= i <= texts.len(),
    ensures
        texts_prefix_len(texts, i) <= texts.flatten().len(),
    decreases texts.len() - i,
{
    if i == texts.len() {
        assert(texts.take(i) =~= texts);
    } else {
        lemma_prefix_step(texts, i);
        lemma_prefix_le_total(texts, i + 1);
    }
}

/// When offset `pos` falls inside segment `i`'s text range, the start
/// locator finds exactly that segment and the offset inside it.
pub proof fn lemma_locate_start_at(texts: Seq<Seq<char>>, pos: int, i: int)
    requires
        0 <= i < texts.len(),
        texts_prefix_len(texts, i) <= pos < texts_prefix_len(texts, i) + texts[i].len(),
    ensures
        locate_start(texts, pos) == Some((i, pos - texts_prefix_len(texts, i))),
    decreases i,
{
    assert(texts.take(0) =~= Seq::<Seq<char>>::empty());
    if i == 0 {
        assert(0 <= pos < texts[0].len());
    } else {
        lemma_prefix_step(texts, 0);
        assert(texts.take(1).flatten() =~= Seq::<Seq<char>>::empty().flatten() + texts[0]);
        lemma_prefix_mono(texts, 1, i);
        assert(pos >= texts[0].len());
        let rest = texts.drop_first();
        let pos2 = pos - texts[0].len();
        lemma_drop_first_prefix(texts, i);
        lemma_locate_start_at(rest, pos2, i - 1);
    }
}

/// The prefix length grows with the prefix.
pub proof fn lemma_prefix_mono(texts: Seq<Seq<char>>, i: int, j: int)
    requires
        0 <= i <= j <= texts.len(),
    ensures
        texts_prefix_len(texts, i) <= texts_prefix_len(texts, j),
    decreases j - i,
{
    if i < j {
        lemma_prefix_step(texts, i);
        lemma_prefix_mono(texts, i + 1, j);
    }
}

/// The prefix length past the first text equals the whole prefix length
/// minus the first text's length.
pub proof fn lemma_drop_first_prefix(texts: Seq<Seq<char>>, i: int)
    requires
        1 <= i <= texts.len(),
    ensures
        texts_prefix_len(texts.drop_first(), i - 1) == texts_prefix_len(texts, i) - texts[0].len(),
{
    let rest = texts.drop_first();
    assert(texts.take(i) =~= seq![texts[0]] + rest.take(i - 1));
    crate::linevec::lemma_flatten_concat_pair(seq![texts[0]], rest.take(i - 1));
    assert(seq![texts[0]].flatten() =~= texts[0]) by {
        seq![texts[0]].lemma_flatten_one_element();
    }
}

/// Flattening a concatenation concatenates the flattenings.
pub proof fn lemma_flatten_concat_pair(x: Seq<Seq<char>>, y: Seq<Seq<char>>)
    ensures
        (x + y).flatten() == x.flatten() + y.flatten(),
{
    vstd::seq_lib::lemma_flatten_concat(x, y);
}

/// When offset `pos` lies in no segment's range, the start locator finds
/// nothing; that happens exactly off the ends of the concatenation.
pub proof fn lemma_locate_start_none(texts: Seq<Seq<char>>, pos: int)
    requires
        pos < 0 || pos >= texts.flatten().len(),
    ensures
        locate_start(texts, pos) is None,
    decreases texts.len(),
{
    if texts.len() > 0 {
        assert(texts.flatten() =~= texts[0] + texts.drop_first().flatten()) by {
            assert(texts =~= seq![texts[0]] + texts.drop_first());
            lemma_flatten_concat_pair(seq![texts[0]], texts.drop_first());
            seq![texts[0]].lemma_flatten_one_element();
        }
        lemma_locate_start_none(texts.drop_first(), pos - texts[0].len());
    }
}

/// What a successful start location means: the found segment's range holds
/// the offset.
pub proof fn lemma_locate_start_inv(texts: Seq<Seq<char>>, pos: int)
    requires
        locate_start(texts, pos) is Some,
    ensures
        ({
            let pr = locate_start(texts, pos)->Some_0;
            &&& 0 <= pr.0 < texts.len()
            &&& texts_prefix_len(texts, pr.0) <= pos < texts_prefix_len(texts, pr.0)
                + texts[pr.0].len()
            &&& pr.1 == pos - texts_prefix_len(texts, pr.0)
        }),
    decreases texts.len(),
{
    assert(texts.take(0) =~= Seq::<Seq<char>>::empty());
    if 0 <= pos < texts[0].len() {
    } else {
        lemma_locate_start_inv(texts.drop_first(), pos - texts[0].len());
        let pr = locate_start(texts.drop_first(), pos - texts[0].len())->Some_0;
        lemma_drop_first_prefix(texts, pr.0 + 1);
    }
}

/// When offset `pos` falls in segment `i`'s range as an end boundary, the
/// end locator finds exactly that segment.
pub proof fn lemma_locate_end_at(texts: Seq<Seq<char>>, pos: int, i: int)
    requires
        0 <= i < texts.len(),
        texts_prefix_len(texts, i) < pos <= texts_prefix_len(texts, i) + texts[i].len(),
    ensures
        locate_end(texts, pos) == Some((i, pos - texts_prefix_len(texts, i))),
    decreases i,
{
    assert(texts.take(0) =~= Seq::<Seq<char>>::empty());
    if i == 0 {
        assert(0 < pos <= texts[0].len());
    } else {
        lemma_prefix_step(texts, 0);
        assert(texts.take(1).flatten() =~= Seq::<Seq<char>>::empty().flatten() + texts[0]);
        lemma_prefix_mono(texts, 1, i);
        assert(pos > texts[0].len());
        lemma_drop_first_prefix(texts, i);
        lemma_locate_end_at(texts.drop_first(), pos - texts[0].len(), i - 1);
    }
}

/// When offset `pos` lies in no segment's end range, the end locator finds
/// nothing.
pub proof fn lemma_locate_end_none(texts: Seq<Seq<char>>, pos: int)
    requires
        pos <= 0 || pos > texts.flatten().len(),
    ensures
        locate_end(texts, pos) is None,
    decreases texts.len(),
{
    if texts.len() > 0 {
        assert(texts.flatten() =~= texts[0] + texts.drop_first().flatten()) by {
            assert(texts =~= seq![texts[0]] + texts.drop_first());
            lemma_flatten_concat_pair(seq![texts[0]], texts.drop_first());
            seq![texts[0]].lemma_flatten_one_element();
        }
        lemma_locate_end_none(texts.drop_first(), pos - texts[0].len());
    }
}

/// What a successful end location means.
pub proof fn lemma_locate_end_inv(texts: Seq<Seq<char>>, pos: int)
    requires
        locate_end(texts, pos) is Some,
    ensures
        ({
            let pr = locate_end(texts, pos)->Some_0;
            &&& 0 <= pr.0 < texts.len()
            &&& texts_prefix_len(texts, pr.0) < pos <= texts_prefix_len(texts, pr.0)
                + texts[pr.0].len()
            &&& pr.1 == pos - texts_prefix_len(texts, pr.0)
        }),
    decreases texts.len(),
{
    assert(texts.take(0) =~= Seq::<Seq<char>>::empty());
    if 0 < pos <= texts[0].len() {
    } else {
        lemma_locate_end_inv(texts.drop_first(), pos - texts[0].len());
        let pr = locate_end(texts.drop_first(), pos - texts[0].len())->Some_0;
        lemma_drop_first_prefix(texts, pr.0 + 1);
    }
}

/// The table entry for segment `j`: its text range inside the
/// concatenated line text.
pub open spec fn table_models(table: Seq<(usize, usize)>, texts: Seq<Seq<char>>) -> bool {
    &&& table.len() == texts.len()
    &&& forall|j: int|
        0 <= j < texts.len() ==> (#[trigger] table[j]).0 == texts_prefix_len(texts, j)
            && table[j].1 == texts_prefix_len(texts, j) + texts[j].len()
}

/// The table of each segment's character range inside the line's
/// concatenated text.
pub(crate) fn segment_table(line: &LineVec) -> (r: Vec<(usize, usize)>)
    requires
        line_text(line_view(*line)).len() <= usize::MAX,
    ensures
        table_models(r@, seg_texts(line_view(*line))),
{
    let ghost texts = seg_texts(line_view(*line));
    let mut table: Vec<(usize, usize)> = Vec::new();
    let mut total: usize = 0;
    let mut idx: usize = 0;
    proof {
        assert(texts.take(0) =~= Seq::<Seq<char>>::empty());
    }
    while idx < line.len()
        invariant
            idx <= line@.len(),
            texts == seg_texts(line_view(*line)),
            texts.flatten().len() <= usize::MAX,
            table@.len() == idx,
            forall|j: int|
                0 <= j < idx ==> (#[trigger] table@[j]).0 == texts_prefix_len(texts, j)
                    && table@[j].1 == texts_prefix_len(texts, j) + texts[j].len(),
            total == texts_prefix_len(texts, idx as int),
        decreases line@.len() - idx,
    {
        let n = line[idx].0.as_str().unicode_len();
        proof {
            assert(texts[idx as int] == line@[idx as int].0@);
            lemma_prefix_step(texts, idx as int);
            lemma_prefix_le_total(texts, idx as int + 1);
        }
        table.push((total, total + n));
        total = total + n;
        idx = idx + 1;
    }
    table
}

/// Finds the segment whose range holds `pos` as a start boundary, or
/// (0, 0) when none does.
fn resolve_start(table: &Vec<(usize, usize)>, pos: usize, Ghost(texts): Ghost<Seq<Seq<char>>>) -> (b: (
    usize,
    usize,
))
    requires
        table_models(table@, texts),
    ensures
        (b.0 as int, b.1 as int) == boundary_or_default(locate_start(texts, pos as int)),
{
    let ghost lr = locate_start(texts, pos as int);
    proof {
        if lr is Some {
            lemma_locate_start_inv(texts, pos as int);
        }
    }
    let mut res: (usize, usize) = (0, 0);
    let mut j: usize = 0;
    while j < table.len()
        invariant
            j <= table@.len(),
            table_models(table@, texts),
            lr == locate_start(texts, pos as int),
            lr is Some && lr->Some_0.0 < j ==> (res.0 as int, res.1 as int) == lr->Some_0,
            lr is Some && lr->Some_0.0 >= j ==> res == (0usize, 0usize),
            lr is None ==> res == (0usize, 0usize),
        decreases table@.len() - j,
    {
        let entry = table[j];
        if entry.0 <= pos && pos < entry.1 {
            proof {
                lemma_locate_start_at(texts, pos as int, j as int);
            }
            res = (j, pos - entry.0);
        } else {
            proof {
                if lr is Some && lr->Some_0.0 == j {
                    lemma_locate_start_inv(texts, pos as int);
                    assert(false);
                }
            }
        }
        j = j + 1;
    }
    proof {
        if lr is Some {
            lemma_locate_start_inv(texts, pos as int);
        }
    }
    res
}

/// Finds the segment whose range holds `pos` as an exclusive end
/// boundary, or (0, 0) when none does.
fn resolve_end(table: &Vec<(usize, usize)>, pos: usize, Ghost(texts): Ghost<Seq<Seq<char>>>) -> (b: (
    usize,
    usize,
))
    requires
        table_models(table@, texts),
    ensures
        (b.0 as int, b.1 as int) == boundary_or_default(locate_end(texts, pos as int)),
{
    let ghost lr = locate_end(texts, pos as int);
    proof {
        if lr is Some {
            lemma_locate_end_inv(texts, pos as int);
        }
    }
    let mut res: (usize, usize) = (0, 0);
    let mut j: usize = 0;
    while j < table.len()
        invariant
            j <= table@.len(),
            table_models(table@, texts),
            lr == locate_end(texts, pos as int),
            lr is Some && lr->Some_0.0 < j ==> (res.0 as int, res.1 as int) == lr->Some_0,
            lr is Some && lr->Some_0.0 >= j ==> res == (0usize, 0usize),
            lr is None ==> res == (0usize, 0usize),
        decreases table@.len() - j,
    {
        let entry = table[j];
        if entry.0 < pos && pos <= entry.1 {
            proof {
                lemma_locate_end_at(texts, pos as int, j as int);
            }
            res = (j, pos - entry.0);
        } else {
            proof {
                if lr is Some && lr->Some_0.0 == j {
                    lemma_locate_end_inv(texts, pos as int);
                    assert(false);
                }
            }
        }
        j = j + 1;
    }
    proof {
        if lr is Some {
            lemma_locate_end_inv(texts, pos as int);
        }
    }
    res
}

/// Whether the needle's characters stand at `pos` in the text.
pub(crate) fn needle_at(text: &Vec<char>, needle: &Vec<char>, pos: usize) -> (r: bool)
    requires
        pos + needle@.len() <= text@.len(),
    ensures
        r == occurs_at(text@, needle@, pos as int),
{
    let n = needle.len();
    let tl = text.len();
    let mut k: usize = 0;
    while k < n
        invariant
            n == needle@.len(),
            tl == text@.len(),
            k <= n,
            pos + n <= tl,
            forall|t: int| 0 <= t < k ==> text@[pos + t] == needle@[t],
        decreases n - k,
    {
        if text[pos + k] != needle[k] {
            proof {
                assert(text@.subrange(pos as int, pos as int + n as int)[k as int] == text@[pos
                    + k]);
            }
            return false;
        }
        k = k + 1;
    }
    proof {
        assert(text@.subrange(pos as int, pos as int + n as int) =~= needle@);
    }
    true
}

/// Finds every non-overlapping occurrence of `search_term` in the line's
/// concatenated text, spanning segment boundaries where needed. Case is
/// folded on both sides when `match_case` is false; under
/// `match_whole_word` a match flanked by an alphanumeric character is
/// rejected and the scan resumes one character later. An empty term
/// yields no spans.
pub fn linevec_find(
    line: &LineVec,
    search_term: &str,
    match_case: bool,
    match_whole_word: bool,
) -> (r: Vec<SplitPoint>)
    requires
        line_text(line_view(*line)).len() <= usize::MAX,
    ensures
        r@.len() == find_spec(line_view(*line), search_term@, match_case, match_whole_word).len(),
        forall|k: int|
            0 <= k < r@.len() ==> split_point_view(r@[k]) == find_spec(
                line_view(*line),
                search_term@,
                match_case,
                match_whole_word,
            )[k],
{
    let ghost m = line_view(*line);
    let ghost texts = seg_texts(m);
    let ghost ftexts = folded_texts(m, match_case);

    // Build the folded concatenation and the table of segment ranges.
    let mut folded: Vec<char> = Vec::new();
    let mut table: Vec<(usize, usize)> = Vec::new();
    let mut total: usize = 0;
    let mut idx: usize = 0;
    proof {
        assert(texts.take(0) =~= Seq::<Seq<char>>::empty());
        assert(ftexts.take(0) =~= Seq::<Seq<char>>::empty());
    }
    while idx < line.len()
        invariant
            idx <= line@.len(),
            m == line_view(*line),
            texts == seg_texts(m),
            ftexts == folded_texts(m, match_case),
            line_text(m).len() <= usize::MAX,
            table@.len() == idx,
            forall|j: int|
                0 <= j < idx ==> (#[trigger] table@[j]).0 == texts_prefix_len(texts, j)
                    && table@[j].1 == texts_prefix_len(texts, j) + texts[j].len(),
            total == texts_prefix_len(texts, idx as int),
            folded@ == ftexts.take(idx as int).flatten(),
        decreases line@.len() - idx,
    {
        let n = line[idx].0.as_str().unicode_len();
        proof {
            assert(texts[idx as int] == line@[idx as int].0@);
            lemma_prefix_step(texts, idx as int);
            lemma_prefix_le_total(texts, idx as int + 1);
        }
        table.push((total, total + n));
        if match_case {
            append_chars(&mut folded, line[idx].0.as_str());
        } else {
            let low = to_lowercase(line[idx].0.as_str());
            append_chars(&mut folded, low.as_str());
        }
        proof {
            lemma_prefix_step(ftexts, idx as int);
            assert(ftexts[idx as int] == fold_case(texts[idx as int], match_case));
        }
        total = total + n;
        idx = idx + 1;
    }
    proof {
        assert(texts.take(line@.len() as int) =~= texts);
        assert(ftexts.take(line@.len() as int) =~= ftexts);
        assert(folded@ == search_text(m, match_case));
        assert(table_models(table@, texts));
    }

    // Fold the needle by the same case rule.
    let needle: Vec<char> = if match_case {
        collect_chars(search_term)
    } else {
        let low = to_lowercase(search_term);
        collect_chars(low.as_str())
    };
    proof {
        assert(needle@ == fold_case(search_term@, match_case));
    }

    let mut result: Vec<SplitPoint> = Vec::new();
    let tlen = needle.len();
    let text_len = folded.len();
    let ghost needle_s = needle@;
    let ghost text_s = folded@;
    let ghost spanlen = tlen as int;
    if tlen == 0 || tlen > text_len {
        proof {
            if needle_s.len() > 0 {
                assert(match_positions_from(text_s, needle_s, match_whole_word, 0)
                    == Seq::<int>::empty());
            }
            assert(find_spec(m, search_term@, match_case, match_whole_word).len() == 0);
        }
        return result;
    }

    let mut pos: usize = 0;
    let ghost mut found: Seq<int> = Seq::empty();
    proof {
        assert(match_positions_from(text_s, needle_s, match_whole_word, 0) == found
            + match_positions_from(text_s, needle_s, match_whole_word, 0));
    }
    while pos <= text_len - tlen
        invariant
            m == line_view(*line),
            texts == seg_texts(m),
            table_models(table@, texts),
            needle_s == needle@,
            text_s == folded@,
            tlen == needle_s.len(),
            text_len == text_s.len(),
            spanlen == tlen as int,
            1 <= tlen <= text_len,
            pos <= text_len,
            match_positions_from(text_s, needle_s, match_whole_word, 0) == found
                + match_positions_from(text_s, needle_s, match_whole_word, pos as int),
            result@.len() == found.len(),
            forall|k: int|
                0 <= k < found.len() ==> split_point_view(#[trigger] result@[k]) == span_for(
                    texts,
                    found[k],
                    spanlen,
                ),
        decreases text_len - pos,
    {
        let mut accepted = needle_at(&folded, &needle, pos);
        if accepted && match_whole_word {
            let start_ok = pos == 0 || !char_is_alphanumeric(folded[pos - 1]);
            let end_ok = pos + tlen == text_len || !char_is_alphanumeric(folded[pos + tlen]);
            accepted = start_ok && end_ok;
            proof {
                assert(accepted == word_bounded(text_s, spanlen, pos as int));
            }
        }
        if accepted {
            proof {
                assert(match_at(text_s, needle_s, match_whole_word, pos as int));
                assert(match_positions_from(text_s, needle_s, match_whole_word, pos as int)
                    == seq![pos as int] + match_positions_from(
                    text_s,
                    needle_s,
                    match_whole_word,
                    pos as int + spanlen,
                ));
            }
            let b_start = resolve_start(&table, pos, Ghost(texts));
            let b_end = resolve_end(&table, pos + tlen, Ghost(texts));
            result.push((b_start, b_end));
            proof {
                found = found.push(pos as int);
                assert(found + match_positions_from(
                    text_s,
                    needle_s,
                    match_whole_word,
                    pos as int + spanlen,
                ) =~= found.drop_last() + (seq![pos as int] + match_positions_from(
                    text_s,
                    needle_s,
                    match_whole_word,
                    pos as int + spanlen,
                )));
            }
            pos = pos + tlen;
        } else {
            proof {
                assert(!match_at(text_s, needle_s, match_whole_word, pos as int));
                assert(match_positions_from(text_s, needle_s, match_whole_word, pos as int)
                    == match_positions_from(text_s, needle_s, match_whole_word, pos as int + 1));
            }
            pos = pos + 1;
        }
    }
    proof {
        assert(match_positions_from(text_s, needle_s, match_whole_word, pos as int)
            == Seq::<int>::empty());
        assert(match_positions(text_s, needle_s, match_whole_word) =~= found);
        assert(find_spec(m, search_term@, match_case, match_whole_word).len() == found.len());
    }
    result
}

/// A style with the caller-supplied override fields replaced and the rest
/// inherited from the original.
pub open spec fn override_style(orig: Style, bg: Option<Color>, fg: Option<Color>) -> Style {
    Style {
        background: match bg {
            Some(c) => c,
            None => orig.background,
        },
        color: match fg {
            Some(c) => c,
            None => orig.color,
        },
    }
}

/// Every segment restyled by the override, texts untouched.
pub open spec fn override_middle(
    m: Seq<(Seq<char>, Style)>,
    bg: Option<Color>,
    fg: Option<Color>,
) -> Seq<(Seq<char>, Style)> {
    m.map_values(|p: (Seq<char>, Style)| (p.0, override_style(p.1, bg, fg)))
}

/// The span's boundaries name real positions of the line: indices in
/// range, offsets inside the named segments' texts, start at or before
/// end.
pub open spec fn span_valid(m: Seq<(Seq<char>, Style)>, sp: ((int, int), (int, int))) -> bool {
    let s = sp.0;
    let e = sp.1;
    &&& 0 <= s.0 < m.len()
    &&& 0 <= e.0 < m.len()
    &&& s.0 <= e.0
    &&& 0 <= s.1 <= m[s.0].0.len()
    &&& 0 <= e.1 <= m[e.0].0.len()
    &&& (s.0 == e.0 ==> s.1 <= e.1)
}

/// One span isolated: the spanned text moved into its own segments with
/// the override style, the text before and after kept with the original
/// styles. Empty before/after pieces are still inserted.
pub open spec fn apply_span(
    m: Seq<(Seq<char>, Style)>,
    sp: ((int, int), (int, int)),
    bg: Option<Color>,
    fg: Option<Color>,
) -> Seq<(Seq<char>, Style)> {
    let si = sp.0.0;
    let so = sp.0.1;
    let ei = sp.1.0;
    let eo = sp.1.1;
    if si == ei {
        let t = m[si].0;
        let st = m[si].1;
        m.take(si) + seq![
            (t.take(so), st),
            (t.subrange(so, eo), override_style(st, bg, fg)),
            (t.skip(eo), st),
        ] + m.skip(si + 1)
    } else {
        let ts = m[si].0;
        let sts = m[si].1;
        let te = m[ei].0;
        let ste = m[ei].1;
        m.take(si) + seq![(ts.take(so), sts), (ts.skip(so), override_style(sts, bg, fg))]
            + override_middle(m.subrange(si + 1, ei), bg, fg) + seq![
            (te.take(eo), override_style(ste, bg, fg)),
            (te.skip(eo), ste),
        ] + m.skip(ei + 1)
    }
}

/// One span applied where it fits the line; a span that does not is
/// skipped, leaving the line as it was.
pub open spec fn apply_span_checked(
    m: Seq<(Seq<char>, Style)>,
    sp: ((int, int), (int, int)),
    bg: Option<Color>,
    fg: Option<Color>,
) -> Seq<(Seq<char>, Style)> {
    if span_valid(m, sp) {
        apply_span(m, sp, bg, fg)
    } else {
        m
    }
}

/// All spans applied, the one with the largest start first, so that
/// splitting never moves the text a span not yet processed points at.
pub open spec fn apply_spans(
    m: Seq<(Seq<char>, Style)>,
    spans: Seq<((int, int), (int, int))>,
    bg: Option<Color>,
    fg: Option<Color>,
) -> Seq<(Seq<char>, Style)>
    decreases spans.len(),
{
    if spans.len() == 0 {
        m
    } else {
        apply_spans(apply_span_checked(m, spans.last(), bg, fg), spans.drop_last(), bg, fg)
    }
}

/// Reading order of start boundaries.
pub open spec fn start_le(a: ((int, int), (int, int)), b: ((int, int), (int, int))) -> bool {
    a.0.0 < b.0.0 || (a.0.0 == b.0.0 && a.0.1 <= b.0.1)
}

/// `x` placed just after the last element whose start is at or before
/// `x`'s: where a stable sort inserts a later element.
pub open spec fn insert_by_start(
    s: Seq<((int, int), (int, int))>,
    x: ((int, int), (int, int)),
) -> Seq<((int, int), (int, int))>
    decreases s.len(),
{
    if s.len() == 0 {
        seq![x]
    } else if start_le(s.last(), x) {
        s.push(x)
    } else {
        insert_by_start(s.drop_last(), x).push(s.last())
    }
}

/// The spans in ascending order of start boundary, equal starts kept in
/// the given order: a stable insertion sort.
pub open spec fn sort_by_start(s: Seq<((int, int), (int, int))>) -> Seq<((int, int), (int, int))>
    decreases s.len(),
{
    if s.len() == 0 {
        Seq::empty()
    } else {
        insert_by_start(sort_by_start(s.drop_last()), s.last())
    }
}

/// A sequence of split points as mathematical boundary pairs.
pub open spec fn spans_view(sps: Seq<SplitPoint>) -> Seq<((int, int), (int, int))> {
    Seq::new(sps.len(), |i: int| split_point_view(sps[i]))
}

/// Inserting at a position bounded by elements at-or-before `x` on its
/// left and strictly-after `x` on its right is what `insert_by_start`
/// does.
pub proof fn lemma_insert_by_start_at(
    s: Seq<((int, int), (int, int))>,
    x: ((int, int), (int, int)),
    j: int,
)
    requires
        0 <= j <= s.len(),
        forall|l: int| j <= l < s.len() ==> !start_le(#[trigger] s[l], x),
        j > 0 ==> start_le(s[j - 1], x),
    ensures
        insert_by_start(s, x) == s.take(j) + seq![x] + s.skip(j),
    decreases s.len(),
{
    if j == s.len() {
        if s.len() == 0 {
            assert(insert_by_start(s, x) =~= s.take(j) + seq![x] + s.skip(j));
        } else {
            assert(start_le(s.last(), x));
            assert(insert_by_start(s, x) =~= s.take(j) + seq![x] + s.skip(j));
        }
    } else {
        assert(!start_le(s[s.len() - 1], x));
        let dl = s.drop_last();
        lemma_insert_by_start_at(dl, x, j);
        assert(insert_by_start(dl, x).push(s.last()) =~= s.take(j) + seq![x] + s.skip(j));
    }
}

/// Peeling the first span off the processing order: the span listed first
/// is the one applied last.
pub proof fn lemma_apply_spans_front(
    m: Seq<(Seq<char>, Style)>,
    spans: Seq<((int, int), (int, int))>,
    bg: Option<Color>,
    fg: Option<Color>,
)
    requires
        spans.len() > 0,
    ensures
        apply_spans(m, spans, bg, fg) == apply_span_checked(
            apply_spans(m, spans.drop_first(), bg, fg),
            spans.first(),
            bg,
            fg,
        ),
    decreases spans.len(),
{
    if spans.len() == 1 {
        let inner = apply_span_checked(m, spans.last(), bg, fg);
        assert(spans.drop_last() =~= spans.drop_first());
        assert(spans.drop_last().len() == 0);
        assert(apply_spans(m, spans, bg, fg) == apply_spans(inner, spans.drop_last(), bg, fg));
        assert(apply_spans(inner, spans.drop_last(), bg, fg) == inner);
        assert(apply_spans(m, spans.drop_first(), bg, fg) == m);
        assert(spans.first() == spans.last());
    } else {
        let inner = apply_span_checked(m, spans.last(), bg, fg);
        assert(apply_spans(m, spans, bg, fg) == apply_spans(inner, spans.drop_last(), bg, fg));
        lemma_apply_spans_front(inner, spans.drop_last(), bg, fg);
        assert(spans.drop_last().drop_first() =~= spans.drop_first().drop_last());
        assert(spans.drop_last().first() == spans.first());
        assert(spans.drop_first().last() == spans.last());
        assert(spans.drop_first().len() > 0);
        assert(apply_spans(m, spans.drop_first(), bg, fg) == apply_spans(
            apply_span_checked(m, spans.drop_first().last(), bg, fg),
            spans.drop_first().drop_last(),
            bg,
            fg,
        ));
        assert(apply_spans(m, spans.drop_first(), bg, fg) == apply_spans(
            inner,
            spans.drop_last().drop_first(),
            bg,
            fg,
        ));
    }
}

/// Clones the characters `from..to` of a segment text.
pub(crate) fn substring_string(s: &String, from: usize, to: usize) -> (r: String)
    requires
        from <= to <= s@.len(),
    ensures
        r@ == s@.subrange(from as int, to as int),
{
    String::from_str(s.as_str().substring_char(from, to))
}

/// Builds the style for a span's middle pieces: override fields where the
/// caller supplied them, the original's otherwise.
fn apply_override(orig: Style, bg: Option<Color>, fg: Option<Color>) -> (s: Style)
    ensures
        s == override_style(orig, bg, fg),
{
    let background = match bg {
        Some(c) => c,
        None => orig.background,
    };
    let color = match fg {
        Some(c) => c,
        None => orig.color,
    };
    Style { background, color }
}

/// Appends one segment, keeping the view relation explicit.
fn push_seg(out: &mut LineVec, text: String, st: Style)
    ensures
        line_view(*final(out)) == line_view(*old(out)).push((text@, st)),
{
    let ghost pre = *out;
    let ghost tv = text@;
    out.push((text, st));
    proof {
        assert(line_view(*out) =~~= line_view(pre).push((tv, st)));
    }
}

/// Appends clones of the segments `from..to` of `line` to `out`.
fn push_segments(out: &mut LineVec, line: &LineVec, from: usize, to: usize)
    requires
        from <= to <= line@.len(),
    ensures
        line_view(*final(out)) == line_view(*old(out)) + line_view(*line).subrange(
            from as int,
            to as int,
        ),
{
    let mut l = from;
    proof {
        assert(line_view(*out) =~~= line_view(*out) + line_view(*line).subrange(
            from as int,
            from as int,
        ));
    }
    while l < to
        invariant
            from <= l <= to <= line@.len(),
            line_view(*out) == line_view(*old(out)) + line_view(*line).subrange(
                from as int,
                l as int,
            ),
        decreases to - l,
    {
        let ghost pre = *out;
        let seg = (line[l].0.clone(), line[l].1);
        out.push(seg);
        proof {
            assert(line_view(*out) =~~= line_view(pre).push((seg.0@, seg.1)));
            assert(line_view(*out) =~~= line_view(*old(out)) + line_view(*line).subrange(
                from as int,
                l as int + 1,
            ));
        }
        l = l + 1;
    }
}

/// Appends the segments `from..to` of `line` to `out`, restyled by the
/// override, texts cloned unchanged.
fn push_overridden(
    out: &mut LineVec,
    line: &LineVec,
    from: usize,
    to: usize,
    bg: Option<Color>,
    fg: Option<Color>,
)
    requires
        from <= to <= line@.len(),
    ensures
        line_view(*final(out)) == line_view(*old(out)) + override_middle(
            line_view(*line).subrange(from as int, to as int),
            bg,
            fg,
        ),
{
    let mut l = from;
    proof {
        assert(line_view(*out) =~~= line_view(*out) + override_middle(
            line_view(*line).subrange(from as int, from as int),
            bg,
            fg,
        ));
    }
    while l < to
        invariant
            from <= l <= to <= line@.len(),
            line_view(*out) == line_view(*old(out)) + override_middle(
                line_view(*line).subrange(from as int, l as int),
                bg,
                fg,
            ),
        decreases to - l,
    {
        let ghost pre = *out;
        let seg = (line[l].0.clone(), apply_override(line[l].1, bg, fg));
        out.push(seg);
        proof {
            assert(line_view(*out) =~~= line_view(pre).push((seg.0@, seg.1)));
            assert(line_view(*out) =~~= line_view(*old(out)) + override_middle(
                line_view(*line).subrange(from as int, l as int + 1),
                bg,
                fg,
            ));
        }
        l = l + 1;
    }
}

/// Rewrites the line so the given span is isolated with the override
/// style; a span that does not fit the line is skipped.
fn apply_one_span(line: &mut LineVec, sp: SplitPoint, bg: Option<Color>, fg: Option<Color>)
    ensures
        line_view(*final(line)) == apply_span_checked(
            line_view(*old(line)),
            split_point_view(sp),
            bg,
            fg,
        ),
{
    let ghost m = line_view(*line);
    let ghost spv = split_point_view(sp);
    let si = sp.0.0;
    let so = sp.0.1;
    let ei = sp.1.0;
    let eo = sp.1.1;
    let len = line.len();
    let valid = si <= ei && ei < len && so <= line[si].0.as_str().unicode_len() && eo
        <= line[ei].0.as_str().unicode_len() && (si != ei || so <= eo);
    proof {
        assert(valid == span_valid(m, spv));
    }
    if !valid {
        return ;
    }
    let mut out: LineVec = Vec::new();
    proof {
        assert(line_view(out) =~~= Seq::<(Seq<char>, Style)>::empty());
    }
    push_segments(&mut out, line, 0, si);
    proof {
        assert(line_view(out) =~~= m.take(si as int));
    }
    if si == ei {
        let st = line[si].1;
        let seg_len = line[si].0.as_str().unicode_len();
        let before = substring_string(&line[si].0, 0, so);
        let middle = substring_string(&line[si].0, so, eo);
        let after = substring_string(&line[si].0, eo, seg_len);
        push_seg(&mut out, before, st);
        push_seg(&mut out, middle, apply_override(st, bg, fg));
        push_seg(&mut out, after, st);
        push_segments(&mut out, line, si + 1, len);
        proof {
            assert(line_view(out) =~~= apply_span(m, spv, bg, fg));
        }
    } else {
        let sts = line[si].1;
        let ste = line[ei].1;
        let slen = line[si].0.as_str().unicode_len();
        let elen = line[ei].0.as_str().unicode_len();
        let before = substring_string(&line[si].0, 0, so);
        let tail = substring_string(&line[si].0, so, slen);
        push_seg(&mut out, before, sts);
        push_seg(&mut out, tail, apply_override(sts, bg, fg));
        push_overridden(&mut out, line, si + 1, ei, bg, fg);
        let head = substring_string(&line[ei].0, 0, eo);
        let after = substring_string(&line[ei].0, eo, elen);
        push_seg(&mut out, head, apply_override(ste, bg, fg));
        push_seg(&mut out, after, ste);
        push_segments(&mut out, line, ei + 1, len);
        proof {
            assert(line_view(out) =~~= apply_span(m, spv, bg, fg));
        }
    }
    *line = out;
}


/// Compares start boundaries: whether `a`'s comes strictly after `b`'s.
fn start_after(a: SplitPoint, b: SplitPoint) -> (r: bool)
    ensures
        r == !start_le(split_point_view(a), split_point_view(b)),
{
    a.0.0 > b.0.0 || (a.0.0 == b.0.0 && a.0.1 > b.0.1)
}

/// The split points in ascending order of start boundary, a stable
/// insertion sort.
fn sort_split_points(sps: &Vec<SplitPoint>) -> (r: Vec<SplitPoint>)
    ensures
        spans_view(r@) == sort_by_start(spans_view(sps@)),
{
    let mut r: Vec<SplitPoint> = Vec::new();
    let mut i: usize = 0;
    proof {
        assert(spans_view(sps@.take(0)) =~= Seq::<((int, int), (int, int))>::empty());
        assert(spans_view(r@) =~= sort_by_start(spans_view(sps@.take(0))));
    }
    while i < sps.len()
        invariant
            i <= sps@.len(),
            spans_view(r@) == sort_by_start(spans_view(sps@.take(i as int))),
        decreases sps@.len() - i,
    {
        let x = sps[i];
        let ghost sv = spans_view(r@);
        let ghost xv = split_point_view(x);
        let mut j = r.len();
        while j > 0 && start_after(r[j - 1], x)
            invariant
                j <= r@.len(),
                sv == spans_view(r@),
                xv == split_point_view(x),
                forall|l: int| j <= l < sv.len() ==> !start_le(#[trigger] sv[l], xv),
            decreases j,
        {
            j = j - 1;
        }
        r.insert(j, x);
        proof {
            lemma_insert_by_start_at(sv, xv, j as int);
            assert(spans_view(r@) =~= sv.take(j as int) + seq![xv] + sv.skip(j as int));
            let taken = spans_view(sps@.take(i as int));
            let taken1 = spans_view(sps@.take(i as int + 1));
            assert(taken1.drop_last() =~= taken);
            assert(taken1.last() == xv);
            assert(sort_by_start(taken1) == insert_by_start(sort_by_start(taken), xv));
        }
        i = i + 1;
    }
    proof {
        assert(sps@.take(i as int) =~= sps@);
    }
    r
}

/// Rewrites the line so every given span is isolated into its own
/// segment(s) carrying the override style, while untouched text keeps its
/// original segments and style. Spans are handled in descending order of
/// start boundary so splitting one never moves the text another points
/// at; a span that does not fit the line at its turn is skipped rather
/// than corrupting the line.
pub fn linevec_split(
    line: &mut LineVec,
    split_points: Vec<SplitPoint>,
    middle_color_bg: Option<Color>,
    middle_color_text: Option<Color>,
)
    ensures
        line_view(*final(line)) == apply_spans(
            line_view(*old(line)),
            sort_by_start(spans_view(split_points@)),
            middle_color_bg,
            middle_color_text,
        ),
{
    let ghost m0 = line_view(*line);
    let sorted = sort_split_points(&split_points);
    let ghost sv = sort_by_start(spans_view(split_points@));
    let mut k = sorted.len();
    proof {
        assert(sv.len() == spans_view(split_points@).len()) by {
            lemma_sort_by_start_len(spans_view(split_points@));
        }
        assert(sv.skip(k as int) =~= Seq::<((int, int), (int, int))>::empty());
    }
    while k > 0
        invariant
            k <= sorted@.len(),
            sv == sort_by_start(spans_view(split_points@)),
            spans_view(sorted@) == sv,
            line_view(*line) == apply_spans(m0, sv.skip(k as int), middle_color_bg,
                middle_color_text,
            ),
        decreases k,
    {
        k = k - 1;
        let ghost before_m = line_view(*line);
        apply_one_span(line, sorted[k], middle_color_bg, middle_color_text);
        proof {
            let rest = sv.skip(k as int);
            assert(rest.len() > 0);
            assert(rest.first() == sv[k as int]);
            assert(rest.drop_first() =~= sv.skip(k as int + 1));
            lemma_apply_spans_front(m0, rest, middle_color_bg, middle_color_text);
            assert(split_point_view(sorted@[k as int]) == sv[k as int]);
        }
    }
    proof {
        assert(sv.skip(0) =~= sv);
    }
}

/// Sorting keeps the number of spans.
pub proof fn lemma_sort_by_start_len(s: Seq<((int, int), (int, int))>)
    ensures
        sort_by_start(s).len() == s.len(),
    decreases s.len(),
{
    if s.len() > 0 {
        lemma_sort_by_start_len(s.drop_last());
        lemma_insert_by_start_len(sort_by_start(s.drop_last()), s.last());
    }
}

/// Inserting adds one span.
pub proof fn lemma_insert_by_start_len(
    s: Seq<((int, int), (int, int))>,
    x: ((int, int), (int, int)),
)
    ensures
        insert_by_start(s, x).len() == s.len() + 1,
    decreases s.len(),
{
    if s.len() > 0 && !start_le(s.last(), x) {
        lemma_insert_by_start_len(s.drop_last(), x);
    }
}

/// Splitting never gains or loses a character: applying one span, where
/// it fits, re-partitions the line's text but leaves the concatenation
/// unchanged.
pub proof fn lemma_apply_span_conserves_text(
    m: Seq<(Seq<char>, Style)>,
    sp: ((int, int), (int, int)),
    bg: Option<Color>,
    fg: Option<Color>,
)
    ensures
        line_text(apply_span_checked(m, sp, bg, fg)) == line_text(m),
{
    if span_valid(m, sp) {
        let si = sp.0.0;
        let so = sp.0.1;
        let ei = sp.1.0;
        let eo = sp.1.1;
        if si == ei {
            let t = m[si].0;
            let pieces = seq![t.take(so), t.subrange(so, eo), t.skip(eo)];
            assert(seg_texts(apply_span(m, sp, bg, fg)) =~~= seg_texts(m.take(si)) + pieces
                + seg_texts(m.skip(si + 1)));
            lemma_flatten_concat_pair(seg_texts(m.take(si)) + pieces, seg_texts(m.skip(si + 1)));
            lemma_flatten_concat_pair(seg_texts(m.take(si)), pieces);
            assert(pieces.flatten() =~= t) by {
                assert(pieces.drop_first() =~= seq![t.subrange(so, eo), t.skip(eo)]);
                assert(pieces.flatten() == pieces.first() + pieces.drop_first().flatten());
                let rest = seq![t.subrange(so, eo), t.skip(eo)];
                assert(rest.drop_first() =~= seq![t.skip(eo)]);
                assert(rest.flatten() == rest.first() + rest.drop_first().flatten());
                seq![t.skip(eo)].lemma_flatten_one_element();
            }
            assert(seg_texts(m) =~~= seg_texts(m.take(si)) + seq![t] + seg_texts(m.skip(si + 1)));
            lemma_flatten_concat_pair(seg_texts(m.take(si)) + seq![t], seg_texts(m.skip(si + 1)));
            lemma_flatten_concat_pair(seg_texts(m.take(si)), seq![t]);
            seq![t].lemma_flatten_one_element();
        } else {
            let ts = m[si].0;
            let te = m[ei].0;
            let mids = seg_texts(m.subrange(si + 1, ei));
            let head = seq![ts.take(so), ts.skip(so)];
            let tailp = seq![te.take(eo), te.skip(eo)];
            assert(seg_texts(apply_span(m, sp, bg, fg)) =~~= seg_texts(m.take(si)) + head + mids
                + tailp + seg_texts(m.skip(ei + 1)));
            lemma_flatten_concat_pair(
                seg_texts(m.take(si)) + head + mids + tailp,
                seg_texts(m.skip(ei + 1)),
            );
            lemma_flatten_concat_pair(seg_texts(m.take(si)) + head + mids, tailp);
            lemma_flatten_concat_pair(seg_texts(m.take(si)) + head, mids);
            lemma_flatten_concat_pair(seg_texts(m.take(si)), head);
            assert(head.flatten() =~= ts) by {
                assert(head.drop_first() =~= seq![ts.skip(so)]);
                assert(head.flatten() == head.first() + head.drop_first().flatten());
                seq![ts.skip(so)].lemma_flatten_one_element();
            }
            assert(tailp.flatten() =~= te) by {
                assert(tailp.drop_first() =~= seq![te.skip(eo)]);
                assert(tailp.flatten() == tailp.first() + tailp.drop_first().flatten());
                seq![te.skip(eo)].lemma_flatten_one_element();
            }
            assert(seg_texts(m) =~~= seg_texts(m.take(si)) + seq![ts] + mids + seq![te]
                + seg_texts(m.skip(ei + 1)));
            lemma_flatten_concat_pair(
                seg_texts(m.take(si)) + seq![ts] + mids + seq![te],
                seg_texts(m.skip(ei + 1)),
            );
            lemma_flatten_concat_pair(seg_texts(m.take(si)) + seq![ts] + mids, seq![te]);
            lemma_flatten_concat_pair(seg_texts(m.take(si)) + seq![ts], mids);
            lemma_flatten_concat_pair(seg_texts(m.take(si)), seq![ts]);
            seq![ts].lemma_flatten_one_element();
            seq![te].lemma_flatten_one_element();
        }
    }
}

/// Splitting by any list of spans conserves the line's text.
pub proof fn lemma_apply_spans_conserves_text(
    m: Seq<(Seq<char>, Style)>,
    spans: Seq<((int, int), (int, int))>,
    bg: Option<Color>,
    fg: Option<Color>,
)
    ensures
        line_text(apply_spans(m, spans, bg, fg)) == line_text(m),
    decreases spans.len(),
{
    if spans.len() > 0 {
        lemma_apply_span_conserves_text(m, spans.last(), bg, fg);
        lemma_apply_spans_conserves_text(
            apply_span_checked(m, spans.last(), bg, fg),
            spans.drop_last(),
            bg,
            fg,
        );
    }
}

/// From an empty scan result no accepted match exists at or after the
/// scan start.
proof fn lemma_mpf_empty_no_match(text: Seq<char>, needle: Seq<char>, whole_word: bool, from: int)
    requires
        needle.len() > 0,
        0 <= from,
        match_positions_from(text, needle, whole_word, from).len() == 0,
    ensures
        forall|i: int| from <= i ==> !#[trigger] match_at(text, needle, whole_word, i),
    decreases text.len() - from,
{
    if from + needle.len() > text.len() {
        assert forall|i: int| from <= i implies !#[trigger] match_at(
            text,
            needle,
            whole_word,
            i,
        ) by {
            assert(i + needle.len() > text.len());
        }
    } else if match_at(text, needle, whole_word, from) {
        assert(match_positions_from(text, needle, whole_word, from).len() > 0);
    } else {
        lemma_mpf_empty_no_match(text, needle, whole_word, from + 1);
    }
}

/// A nonempty scan result names an accepted match.
proof fn lemma_mpf_nonempty_exists(text: Seq<char>, needle: Seq<char>, whole_word: bool, from: int)
    requires
        needle.len() > 0,
        match_positions_from(text, needle, whole_word, from).len() > 0,
    ensures
        exists|i: int| from <= i && match_at(text, needle, whole_word, i),
    decreases text.len() - from,
{
    if from < 0 || from + needle.len() > text.len() {
    } else if match_at(text, needle, whole_word, from) {
        assert(from <= from && match_at(text, needle, whole_word, from));
    } else {
        lemma_mpf_nonempty_exists(text, needle, whole_word, from + 1);
        let i = choose|i: int| from + 1 <= i && match_at(text, needle, whole_word, i);
        assert(from <= i && match_at(text, needle, whole_word, i));
    }
}

/// The locator finds a span exactly when an accepted occurrence of the
/// needle exists: presence of a term means at least one span found.
pub proof fn lemma_term_presence(text: Seq<char>, needle: Seq<char>, whole_word: bool)
    requires
        needle.len() > 0,
    ensures
        match_positions(text, needle, whole_word).len() > 0 <==> exists|i: int|
            match_at(text, needle, whole_word, i),
{
    if match_positions(text, needle, whole_word).len() > 0 {
        lemma_mpf_nonempty_exists(text, needle, whole_word, 0);
    }
    if exists|i: int| match_at(text, needle, whole_word, i) {
        let i = choose|i: int| match_at(text, needle, whole_word, i);
        if match_positions(text, needle, whole_word).len() == 0 {
            lemma_mpf_empty_no_match(text, needle, whole_word, 0);
            assert(!match_at(text, needle, whole_word, i));
        }
    }
}

/// What the scan's output is made of, from `from` on: every reported
/// offset is an accepted match at or after `from`, the first reported
/// offset is the earliest accepted one, and each further match starts at
/// or after the previous match's end, so matches never overlap.
pub proof fn lemma_scan_sound(text: Seq<char>, needle: Seq<char>, whole_word: bool, from: int)
    requires
        needle.len() > 0,
        0 <= from,
    ensures
        ({
            let ps = match_positions_from(text, needle, whole_word, from);
            &&& forall|k: int|
                0 <= k < ps.len() ==> from <= #[trigger] ps[k] && match_at(
                    text,
                    needle,
                    whole_word,
                    ps[k],
                )
            &&& forall|k: int|
                0 <= k && k + 1 < ps.len() ==> #[trigger] ps[k] + needle.len() <= ps[k + 1]
            &&& ps.len() > 0 ==> forall|i: int|
                from <= i < ps.first() ==> !#[trigger] match_at(text, needle, whole_word, i)
        }),
    decreases text.len() - from,
{
    let ps = match_positions_from(text, needle, whole_word, from);
    if from + needle.len() > text.len() {
    } else if match_at(text, needle, whole_word, from) {
        let rest = match_positions_from(text, needle, whole_word, from + needle.len() as int);
        lemma_scan_sound(text, needle, whole_word, from + needle.len() as int);
        assert(ps == seq![from] + rest);
        assert(ps.first() == from);
        assert forall|k: int| 0 <= k < ps.len() implies from <= #[trigger] ps[k] && match_at(
            text,
            needle,
            whole_word,
            ps[k],
        ) by {
            if k > 0 {
                assert(ps[k] == rest[k - 1]);
            }
        }
        assert forall|k: int| 0 <= k && k + 1 < ps.len() implies #[trigger] ps[k] + needle.len()
            <= ps[k + 1] by {
            if k == 0 {
                assert(ps[1] == rest[0]);
            } else {
                assert(ps[k] == rest[k - 1]);
                assert(ps[k + 1] == rest[k]);
            }
        }
    } else {
        lemma_scan_sound(text, needle, whole_word, from + 1);
        assert(ps == match_positions_from(text, needle, whole_word, from + 1));
        if ps.len() > 0 {
            assert forall|i: int| from <= i < ps.first() implies !#[trigger] match_at(
                text,
                needle,
                whole_word,
                i,
            ) by {
                if i > from {
                    assert(from + 1 <= i < ps.first());
                }
            }
        }
    }
}

/// The locator's matches, over the whole text: each reported offset is an
/// accepted match, the first is the earliest one, and no two matches
/// overlap.
pub proof fn lemma_match_positions_sound(text: Seq<char>, needle: Seq<char>, whole_word: bool)
    requires
        needle.len() > 0,
    ensures
        ({
            let ps = match_positions(text, needle, whole_word);
            &&& forall|k: int|
                0 <= k < ps.len() ==> 0 <= #[trigger] ps[k] && match_at(
                    text,
                    needle,
                    whole_word,
                    ps[k],
                )
            &&& forall|k: int|
                0 <= k && k + 1 < ps.len() ==> #[trigger] ps[k] + needle.len() <= ps[k + 1]
            &&& ps.len() > 0 ==> forall|i: int|
                0 <= i < ps.first() ==> !#[trigger] match_at(text, needle, whole_word, i)
        }),
{
    lemma_scan_sound(text, needle, whole_word, 0);
}

/// Every offset inside the concatenation falls in some segment's range.
pub proof fn lemma_locate_start_in_range(texts: Seq<Seq<char>>, pos: int)
    requires
        0 <= pos < texts.flatten().len(),
    ensures
        locate_start(texts, pos) is Some,
    decreases texts.len(),
{
    assert(texts.len() > 0);
    assert(texts.flatten() =~= texts[0] + texts.drop_first().flatten()) by {
        assert(texts =~= seq![texts[0]] + texts.drop_first());
        lemma_flatten_concat_pair(seq![texts[0]], texts.drop_first());
        seq![texts[0]].lemma_flatten_one_element();
    }
    if 0 <= pos < texts[0].len() {
    } else {
        lemma_locate_start_in_range(texts.drop_first(), pos - texts[0].len());
    }
}

/// Every end offset strictly inside or at the end of the concatenation
/// closes in some segment's range.
pub proof fn lemma_locate_end_in_range(texts: Seq<Seq<char>>, pos: int)
    requires
        0 < pos <= texts.flatten().len(),
    ensures
        locate_end(texts, pos) is Some,
    decreases texts.len(),
{
    assert(texts.len() > 0);
    assert(texts.flatten() =~= texts[0] + texts.drop_first().flatten()) by {
        assert(texts =~= seq![texts[0]] + texts.drop_first());
        lemma_flatten_concat_pair(seq![texts[0]], texts.drop_first());
        seq![texts[0]].lemma_flatten_one_element();
    }
    if 0 < pos <= texts[0].len() {
    } else {
        lemma_locate_end_in_range(texts.drop_first(), pos - texts[0].len());
    }
}

/// With case matching on, every span the locator reports names real
/// positions of the line: segment indices in range, offsets inside their
/// segments' texts, and the start boundary at or before the end boundary.
pub proof fn lemma_find_spec_spans_valid(
    m: Seq<(Seq<char>, Style)>,
    term: Seq<char>,
    whole_word: bool,
)
    ensures
        forall|k: int|
            0 <= k < find_spec(m, term, true, whole_word).len() ==> span_valid(
                m,
                #[trigger] find_spec(m, term, true, whole_word)[k],
            ),
{
    if term.len() == 0 {
        return ;
    }
    let texts = seg_texts(m);
    let text = search_text(m, true);
    assert(folded_texts(m, true) =~= texts);
    assert(text == texts.flatten());
    let ps = match_positions(text, term, whole_word);
    lemma_match_positions_sound(text, term, whole_word);
    assert forall|k: int| 0 <= k < find_spec(m, term, true, whole_word).len() implies span_valid(
        m,
        #[trigger] find_spec(m, term, true, whole_word)[k],
    ) by {
        let p = ps[k];
        assert(match_at(text, term, whole_word, p));
        assert(0 <= p && p + term.len() <= texts.flatten().len());
        lemma_locate_start_in_range(texts, p);
        lemma_locate_start_inv(texts, p);
        lemma_locate_end_in_range(texts, p + term.len() as int);
        lemma_locate_end_inv(texts, p + term.len() as int);
        let sb = locate_start(texts, p)->Some_0;
        let eb = locate_end(texts, p + term.len() as int)->Some_0;
        assert(find_spec(m, term, true, whole_word)[k] == span_for(texts, p, term.len() as int));
        assert(span_for(texts, p, term.len() as int) == (sb, eb));
        if sb.0 > eb.0 {
            lemma_prefix_mono(texts, eb.0 + 1, sb.0);
            assert(texts_prefix_len(texts, eb.0 + 1) <= texts_prefix_len(texts, sb.0));
            assert(p + term.len() <= texts_prefix_len(texts, eb.0) + texts[eb.0].len());
            lemma_prefix_step(texts, eb.0);
            assert(texts.take(eb.0 + 1).flatten() == texts.take(eb.0).flatten() + texts[eb.0]);
            assert(false);
        }
        assert(texts[sb.0].len() == m[sb.0].0.len());
        assert(texts[eb.0].len() == m[eb.0].0.len());
    }
}

} // verus!
