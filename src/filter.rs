//! Selecting tokens by exact, substring or pattern match.

use crate::error::SpanError;
use crate::segment::str_views;
use crate::span::{span_views, SpanView, WordSpan};
use vstd::prelude::*;

verus! {

#[verifier::external_type_specification]
#[verifier::external_body]
pub struct ExRegex(regex::Regex);

#[verifier::external_type_specification]
#[verifier::external_body]
pub struct ExRegexError(regex::Error);

/// How a filter string is compared with a token.
#[derive(Clone, Copy, Debug, PartialEq, Eq, Structural)]
pub enum FilterMode {
    /// The token equals the filter.
    Exact,
    /// The token contains the filter.
    Contains,
    /// The filter is a regular expression that matches somewhere in the token.
    Regex,
}

impl Default for FilterMode {
    fn default() -> (r: Self)
        ensures
            r == FilterMode::Exact,
    {
        FilterMode::Exact
    }
}

/// The lowercase form of a text, as Unicode case mapping gives it.
pub uninterp spec fn lower_of(s: Seq<char>) -> Seq<char>;

/// Whether `pattern` is a regular expression that compiles.
pub uninterp spec fn regex_compiles(pattern: Seq<char>) -> bool;

/// Whether the regular expression `pattern` matches somewhere in `haystack`.
pub uninterp spec fn regex_matches(pattern: Seq<char>, haystack: Seq<char>) -> bool;

/// Whether `needle` occurs in `hay` as a contiguous run.
pub open spec fn has_substring(hay: Seq<char>, needle: Seq<char>) -> bool {
    exists|i: int|
        0 <= i && i + needle.len() <= hay.len() && #[trigger] hay.subrange(i, i + needle.len())
            == needle
}

/// The regular expression compiled for a filter: with the case-insensitive flag
/// `(?i)` in front when case is ignored.
pub open spec fn regex_source(filter: Seq<char>, ignore_case: bool) -> Seq<char> {
    if ignore_case {
        seq!['(', '?', 'i', ')'] + filter
    } else {
        filter
    }
}

/// Whether `word` equals `filter`, or with `substring` contains it.
pub open spec fn text_match(word: Seq<char>, filter: Seq<char>, substring: bool) -> bool {
    if substring {
        has_substring(word, filter)
    } else {
        word == filter
    }
}

/// Whether one filter accepts `word`.
pub open spec fn criterion_holds(
    mode: FilterMode,
    ignore_case: bool,
    filter: Seq<char>,
    word: Seq<char>,
) -> bool {
    match mode {
        FilterMode::Regex => regex_matches(regex_source(filter, ignore_case), word),
        _ => if ignore_case {
            text_match(lower_of(word), lower_of(filter), mode == FilterMode::Contains)
        } else {
            text_match(word, filter, mode == FilterMode::Contains)
        },
    }
}

/// Whether some filter accepts `word`.
pub open spec fn word_selected(
    mode: FilterMode,
    ignore_case: bool,
    filters: Seq<Seq<char>>,
    word: Seq<char>,
) -> bool {
    exists|k: int| 0 <= k < filters.len() && criterion_holds(mode, ignore_case, #[trigger] filters[k], word)
}

/// The spans whose words some filter accepts, in order.
pub open spec fn selected_spans(
    spans: Seq<SpanView>,
    mode: FilterMode,
    ignore_case: bool,
    filters: Seq<Seq<char>>,
) -> Seq<SpanView>
    decreases spans.len(),
{
    if spans.len() == 0 {
        Seq::empty()
    } else {
        let rest = selected_spans(spans.drop_last(), mode, ignore_case, filters);
        if word_selected(mode, ignore_case, filters, spans.last().0) {
            rest.push(spans.last())
        } else {
            rest
        }
    }
}

/// The result of filtering: every span when there are no filters, else the selected ones.
pub open spec fn filtered(
    spans: Seq<SpanView>,
    mode: FilterMode,
    ignore_case: bool,
    filters: Seq<Seq<char>>,
) -> Seq<SpanView> {
    if filters.len() == 0 {
        spans
    } else {
        selected_spans(spans, mode, ignore_case, filters)
    }
}

/// Whether filtering fails: some filter, in pattern mode, does not compile.
pub open spec fn pattern_error(mode: FilterMode, ignore_case: bool, filters: Seq<Seq<char>>) -> bool {
    &&& filters.len() > 0
    &&& mode == FilterMode::Regex
    &&& exists|k: int| 0 <= k < filters.len() && !regex_compiles(regex_source(#[trigger] filters[k], ignore_case))
}

/// Relies on `str::to_lowercase`: the lowercase mapping of each character, which depends
/// on the text alone.
#[verifier::external_body]
fn lowercase(s: &str) -> (r: String)
    ensures
        r@ == lower_of(s@),
{
    s.to_lowercase()
}

/// Relies on `str::contains` with a `&str` pattern: whether `needle` matches a sub-slice
/// of `hay`.
#[verifier::external_body]
fn str_contains(hay: &str, needle: &str) -> (r: bool)
    ensures
        r == has_substring(hay@, needle@),
{
    hay.contains(needle)
}

/// Whether `word` equals `filter`, or with `substring` contains it: the exact and
/// substring modes, on texts already lowercased when case is ignored.
pub fn text_matches(word: &str, filter: &str, substring: bool) -> (r: bool)
    ensures
        r == text_match(word@, filter@, substring),
{
    if substring {
        str_contains(word, filter)
    } else {
        word_eq(word, filter)
    }
}

/// Whether two texts are equal.
fn word_eq(a: &str, b: &str) -> (r: bool)
    ensures
        r == (a@ == b@),
{
    let x = String::from_str(a);
    let y = String::from_str(b);
    x == y
}

/// A compiled regular expression, with the pattern text it was compiled from. Only
/// `compile_matcher` builds one.
struct Matcher {
    re: regex::Regex,
    source: String,
}

/// Relies on `regex::Regex::new`: it compiles `pattern` or reports why it cannot, and the
/// outcome depends on the pattern alone.
#[verifier::external_body]
fn compile_matcher(pattern: String) -> (r: Result<Matcher, regex::Error>)
    ensures
        r is Ok <==> regex_compiles(pattern@),
        r matches Ok(m) ==> m.source@ == pattern@,
{
    match regex::Regex::new(&pattern) {
        Ok(re) => Ok(Matcher { re, source: pattern }),
        Err(e) => Err(e),
    }
}

/// Relies on `regex::Regex::is_match`: whether the expression compiled from `m.source`
/// matches anywhere in `haystack`.
#[verifier::external_body]
fn matcher_is_match(m: &Matcher, haystack: &str) -> (r: bool)
    ensures
        r == regex_matches(m.source@, haystack@),
{
    m.re.is_match(haystack)
}

/// The pattern text compiled for `filter`.
fn regex_text(filter: &String, ignore_case: bool) -> (r: String)
    ensures
        r@ == regex_source(filter@, ignore_case),
{
    if ignore_case {
        let mut text = String::from_str("(?i)");
        proof {
            reveal_strlit("(?i)");
        }
        text.append(filter.as_str());
        text
    } else {
        filter.clone()
    }
}

/// Compiles every filter as a regular expression, stopping at the first that fails.
fn compile_all(filters: &[String], ignore_case: bool) -> (r: Result<Vec<Matcher>, regex::Error>)
    ensures
        r is Err <==> exists|k: int|
            0 <= k < filters@.len() && !regex_compiles(
                regex_source((#[trigger] filters@[k])@, ignore_case),
            ),
        r matches Ok(ms) ==> ms@.len() == filters@.len() && forall|k: int|
            0 <= k < filters@.len() ==> (#[trigger] ms@[k]).source@ == regex_source(
                filters@[k]@,
                ignore_case,
            ),
{
    let mut matchers: Vec<Matcher> = Vec::new();
    let mut k: usize = 0;
    while k < filters.len()
        invariant
            k <= filters@.len(),
            matchers@.len() == k,
            forall|j: int|
                0 <= j < k ==> (#[trigger] matchers@[j]).source@ == regex_source(
                    filters@[j]@,
                    ignore_case,
                ) && regex_compiles(regex_source(filters@[j]@, ignore_case)),
        decreases filters.len() - k,
    {
        let text = regex_text(&filters[k], ignore_case);
        match compile_matcher(text) {
            Ok(m) => matchers.push(m),
            Err(e) => {
                assert(!regex_compiles(regex_source(filters@[k as int]@, ignore_case)));
                return Err(e);
            },
        }
        k += 1;
    }
    assert forall|j: int| 0 <= j < filters@.len() implies regex_compiles(
        regex_source((#[trigger] filters@[j])@, ignore_case),
    ) by {
        assert(matchers@[j].source@ == regex_source(filters@[j]@, ignore_case));
    }
    Ok(matchers)
}

/// Whether some filter accepts `word`; in pattern mode the filters' compiled forms are
/// `matchers`, in the same order.
fn any_criterion(
    word: &String,
    filters: &[String],
    mode: FilterMode,
    ignore_case: bool,
    matchers: &Vec<Matcher>,
) -> (r: bool)
    requires
        mode == FilterMode::Regex ==> matchers@.len() == filters@.len() && forall|k: int|
            0 <= k < filters@.len() ==> (#[trigger] matchers@[k]).source@ == regex_source(
                filters@[k]@,
                ignore_case,
            ),
    ensures
        r == word_selected(mode, ignore_case, str_views(filters@), word@),
{
    let ghost fs = str_views(filters@);
    let lower_word = lowercase(word.as_str());
    let mut k: usize = 0;
    while k < filters.len()
        invariant
            k <= filters@.len(),
            fs == str_views(filters@),
            lower_word@ == lower_of(word@),
            mode == FilterMode::Regex ==> matchers@.len() == filters@.len() && forall|j: int|
                0 <= j < filters@.len() ==> (#[trigger] matchers@[j]).source@ == regex_source(
                    filters@[j]@,
                    ignore_case,
                ),
            forall|j: int| 0 <= j < k ==> !criterion_holds(mode, ignore_case, #[trigger] fs[j], word@),
        decreases filters.len() - k,
    {
        let filter = &filters[k];
        let hit = match mode {
            FilterMode::Regex => matcher_is_match(&matchers[k], word.as_str()),
            _ => {
                let substring = mode == FilterMode::Contains;
                if ignore_case {
                    let lower_filter = lowercase(filter.as_str());
                    text_matches(lower_word.as_str(), lower_filter.as_str(), substring)
                } else {
                    text_matches(word.as_str(), filter.as_str(), substring)
                }
            },
        };
        assert(fs[k as int] == filter@);
        if hit {
            return true;
        }
        k += 1;
    }
    false
}

/// Keeps the spans whose word some filter accepts (all of them when there are no
/// filters), in order. In pattern mode every filter is compiled first, and the first one
/// that does not compile is the error.
pub fn filter_word_spans(
    spans: Vec<WordSpan>,
    filters: &[String],
    filter_mode: &FilterMode,
    ignore_case: bool,
) -> (r: Result<Vec<WordSpan>, SpanError>)
    ensures
        r is Err <==> pattern_error(*filter_mode, ignore_case, str_views(filters@)),
        r matches Err(e) ==> e is RegexError,
        r matches Ok(out) ==> span_views(out@) == filtered(
            span_views(spans@),
            *filter_mode,
            ignore_case,
            str_views(filters@),
        ),
{
    let ghost fs = str_views(filters@);
    if filters.len() == 0 {
        return Ok(spans);
    }
    let mode = *filter_mode;
    let mut matchers: Vec<Matcher> = Vec::new();
    if mode == FilterMode::Regex {
        match compile_all(filters, ignore_case) {
            Ok(ms) => {
                matchers = ms;
            },
            Err(e) => {
                proof {
                    let k = choose|k: int|
                        0 <= k < filters@.len() && !regex_compiles(
                            regex_source((#[trigger] filters@[k])@, ignore_case),
                        );
                    assert(fs[k] == filters@[k]@);
                }
                return Err(SpanError::RegexError(e));
            },
        }
    }
    proof {
        if mode == FilterMode::Regex {
            assert forall|k: int| 0 <= k < fs.len() implies regex_compiles(
                regex_source(#[trigger] fs[k], ignore_case),
            ) by {
                assert(fs[k] == filters@[k]@);
            }
        }
    }
    let ghost all = span_views(spans@);
    let mut out: Vec<WordSpan> = Vec::new();
    let mut i: usize = 0;
    while i < spans.len()
        invariant
            i <= spans@.len(),
            fs == str_views(filters@),
            all == span_views(spans@),
            mode == FilterMode::Regex ==> matchers@.len() == filters@.len() && forall|j: int|
                0 <= j < filters@.len() ==> (#[trigger] matchers@[j]).source@ == regex_source(
                    filters@[j]@,
                    ignore_case,
                ),
            span_views(out@) == selected_spans(all.take(i as int), mode, ignore_case, fs),
        decreases spans.len() - i,
    {
        let span = &spans[i];
        let keep = any_criterion(&span.word, filters, mode, ignore_case, &matchers);
        proof {
            assert(all.take(i + 1).drop_last() =~= all.take(i as int));
            assert(all.take(i + 1).last() == span@);
        }
        if keep {
            let ghost before = span_views(out@);
            out.push(WordSpan { word: span.word.clone(), start: span.start, end: span.end });
            assert(span_views(out@) =~= before.push(span@));
        }
        i += 1;
    }
    assert(all.take(i as int) =~= all);
    Ok(out)
}

/// Filtering is idempotent: filtering already filtered spans again, with the same
/// filters, mode and case handling, changes nothing.
pub proof fn lemma_filter_idempotent(
    spans: Seq<SpanView>,
    mode: FilterMode,
    ignore_case: bool,
    filters: Seq<Seq<char>>,
)
    ensures
        filtered(filtered(spans, mode, ignore_case, filters), mode, ignore_case, filters)
            == filtered(spans, mode, ignore_case, filters),
{
    if filters.len() > 0 {
        lemma_selected_all_selected(spans, mode, ignore_case, filters);
        lemma_selected_unchanged(
            selected_spans(spans, mode, ignore_case, filters),
            mode,
            ignore_case,
            filters,
        );
    }
}

/// Every selected span has a word that some filter accepts.
proof fn lemma_selected_all_selected(
    spans: Seq<SpanView>,
    mode: FilterMode,
    ignore_case: bool,
    filters: Seq<Seq<char>>,
)
    ensures
        forall|i: int|
            0 <= i < selected_spans(spans, mode, ignore_case, filters).len() ==> word_selected(
                mode,
                ignore_case,
                filters,
                (#[trigger] selected_spans(spans, mode, ignore_case, filters)[i]).0,
            ),
    decreases spans.len(),
{
    if spans.len() > 0 {
        let rest = selected_spans(spans.drop_last(), mode, ignore_case, filters);
        lemma_selected_all_selected(spans.drop_last(), mode, ignore_case, filters);
        let all = selected_spans(spans, mode, ignore_case, filters);
        assert forall|i: int| 0 <= i < all.len() implies word_selected(
            mode,
            ignore_case,
            filters,
            (#[trigger] all[i]).0,
        ) by {
            if i < rest.len() {
                assert(all[i] == rest[i]);
            }
        }
    }
}

/// Selecting from spans that are all accepted keeps them all.
proof fn lemma_selected_unchanged(
    spans: Seq<SpanView>,
    mode: FilterMode,
    ignore_case: bool,
    filters: Seq<Seq<char>>,
)
    requires
        forall|i: int| 0 <= i < spans.len() ==> word_selected(mode, ignore_case, filters, (#[trigger] spans[i]).0),
    ensures
        selected_spans(spans, mode, ignore_case, filters) == spans,
    decreases spans.len(),
{
    if spans.len() > 0 {
        let init = spans.drop_last();
        assert forall|i: int| 0 <= i < init.len() implies word_selected(mode, ignore_case, filters, (#[trigger] init[i]).0) by {
            assert(init[i] == spans[i]);
        }
        lemma_selected_unchanged(init, mode, ignore_case, filters);
        assert(spans.last() == spans[spans.len() - 1]);
        assert(init.push(spans.last()) =~= spans);
    }
}

} // verus!
