//! Splitting a literal's text into tokens: by Unicode word boundaries, or with
//! quoted substrings kept whole.

use crate::error::SpanError;
use crate::span::{
    all_white, byte_len, is_white_space, is_white_space_char, lemma_utf8_len_at_least_len,
    lemma_utf8_len_concat, lemma_utf8_len_prefix, lemma_utf8_len_single, span_views, utf8_len,
    utf8_width, SpanView, WordSpan,
};
use crate::tiling::{byte_tiling, lemma_layout_tiles};
use unicode_segmentation::UnicodeSegmentation;
use vstd::utf8::encode_utf8;
use vstd::prelude::*;

verus! {

/// A piece of a text: its characters, and whether it becomes a token.
pub type Piece = (Seq<char>, bool);

/// The concatenation of `parts`, in order.
pub open spec fn joined(parts: Seq<Seq<char>>) -> Seq<char>
    decreases parts.len(),
{
    if parts.len() == 0 {
        Seq::empty()
    } else {
        parts[0] + joined(parts.drop_first())
    }
}

/// The characters of each string.
pub open spec fn str_views(v: Seq<String>) -> Seq<Seq<char>> {
    v.map_values(|s: String| s@)
}

/// The text of each piece.
pub open spec fn piece_texts(pieces: Seq<Piece>) -> Seq<Seq<char>> {
    pieces.map_values(|p: Piece| p.0)
}

/// Word-boundary segments as pieces: a segment is a token unless it is all whitespace.
pub open spec fn classify(segments: Seq<Seq<char>>) -> Seq<Piece> {
    segments.map_values(|s: Seq<char>| (s, !all_white(s)))
}

/// The spans of the kept pieces, where the first piece starts at byte `pos` and each
/// piece, kept or not, advances the position by its byte length.
pub open spec fn spans_of_pieces(pieces: Seq<Piece>, pos: nat) -> Seq<SpanView>
    decreases pieces.len(),
{
    if pieces.len() == 0 {
        Seq::empty()
    } else {
        let next = pos + utf8_len(pieces[0].0);
        let rest = spans_of_pieces(pieces.drop_first(), next);
        if pieces[0].1 {
            seq![(pieces[0].0, pos, next)] + rest
        } else {
            rest
        }
    }
}

/// `pieces` partition `text`: they concatenate to it, none is empty, and each piece
/// that is not a token is whitespace only.
pub open spec fn is_layout(text: Seq<char>, pieces: Seq<Piece>) -> bool {
    &&& joined(piece_texts(pieces)) == text
    &&& forall|i: int| 0 <= i < pieces.len() ==> (#[trigger] pieces[i]).0.len() > 0
    &&& forall|i: int| 0 <= i < pieces.len() && !(#[trigger] pieces[i]).1 ==> all_white(pieces[i].0)
}

/// Every span is non-empty, and each ends at or before the start of the next.
pub open spec fn spans_ordered(spans: Seq<SpanView>) -> bool {
    &&& forall|i: int| 0 <= i < spans.len() ==> (#[trigger] spans[i]).1 < spans[i].2
    &&& forall|i: int, j: int|
        0 <= i < j < spans.len() ==> (#[trigger] spans[i]).2 <= (#[trigger] spans[j]).1
}

/// Spans of pieces whose tokens are non-empty are ordered, and lie within the bytes
/// of the pieces.
pub proof fn lemma_spans_of_pieces_ordered(pieces: Seq<Piece>, pos: nat)
    requires
        forall|i: int| 0 <= i < pieces.len() && (#[trigger] pieces[i]).1 ==> pieces[i].0.len() > 0,
    ensures
        spans_ordered(spans_of_pieces(pieces, pos)),
        forall|i: int|
            0 <= i < spans_of_pieces(pieces, pos).len() ==> pos <= (#[trigger] spans_of_pieces(
                pieces,
                pos,
            )[i]).1 && spans_of_pieces(pieces, pos)[i].2 <= pos + utf8_len(
                joined(piece_texts(pieces)),
            ),
    decreases pieces.len(),
{
    if pieces.len() > 0 {
        let p = pieces[0];
        let next = pos + utf8_len(p.0);
        let tail = pieces.drop_first();
        assert forall|i: int| 0 <= i < tail.len() && (#[trigger] tail[i]).1 implies tail[i].0.len()
            > 0 by {
            assert(tail[i] == pieces[i + 1]);
        }
        lemma_spans_of_pieces_ordered(tail, next);
        assert(piece_texts(pieces).drop_first() =~= piece_texts(tail));
        lemma_utf8_len_concat(p.0, joined(piece_texts(tail)));
        let rest = spans_of_pieces(tail, next);
        let all = spans_of_pieces(pieces, pos);
        if p.1 {
            assert(pieces[0].1);
            lemma_utf8_len_at_least_len(p.0);
            assert(all == seq![(p.0, pos, next)] + rest);
            assert forall|i: int| 0 <= i < all.len() implies pos <= (#[trigger] all[i]).1 && all[i].2
                <= pos + utf8_len(joined(piece_texts(pieces))) by {
                if i > 0 {
                    assert(all[i] == rest[i - 1]);
                }
            }
            assert forall|i: int, j: int| 0 <= i < j < all.len() implies (#[trigger] all[i]).2 <= (
            #[trigger] all[j]).1 by {
                assert(all[j] == rest[j - 1]);
                if i > 0 {
                    assert(all[i] == rest[i - 1]);
                }
            }
            assert forall|i: int| 0 <= i < all.len() implies (#[trigger] all[i]).1 < all[i].2 by {
                if i > 0 {
                    assert(all[i] == rest[i - 1]);
                }
            }
        }
    }
}

/// The text between consecutive word boundaries, in order, as Unicode word
/// segmentation (UAX #29) cuts it.
pub uninterp spec fn word_bounds_of(s: Seq<char>) -> Seq<Seq<char>>;

/// Relies on `UnicodeSegmentation::split_word_bounds`: the substrings between UAX #29
/// word boundaries, in order. Its documentation states that their concatenation is the
/// input; its iterator stops when the rest is empty and otherwise yields at least one
/// character, so no substring is empty.
#[verifier::external_body]
fn split_word_bounds(s: &str) -> (r: Vec<String>)
    ensures
        str_views(r@) == word_bounds_of(s@),
        joined(str_views(r@)) == s@,
        forall|i: int| 0 <= i < r@.len() ==> (#[trigger] r@[i])@.len() > 0,
{
    s.split_word_bounds().map(String::from).collect()
}

/// Relies on `str::chars`: the characters of the string, in order.
#[verifier::external_body]
fn chars_of(s: &str) -> (r: Vec<char>)
    ensures
        r@ == s@,
{
    s.chars().collect()
}

/// Whether every character of `s` is whitespace.
pub fn is_all_white_space(s: &str) -> (r: bool)
    ensures
        r == all_white(s@),
{
    let cs = chars_of(s);
    let mut i: usize = 0;
    while i < cs.len()
        invariant
            i <= cs.len(),
            cs@ == s@,
            forall|k: int| 0 <= k < i ==> is_white_space(#[trigger] cs@[k]),
        decreases cs.len() - i,
    {
        if !is_white_space_char(cs[i]) {
            return false;
        }
        i += 1;
    }
    true
}

/// Appends the tokens of consecutive word-boundary segments, the first of which starts
/// at byte `base`.
pub fn push_segment_spans(spans: &mut Vec<WordSpan>, segments: &Vec<String>, base: usize)
    requires
        base + utf8_len(joined(str_views(segments@))) <= usize::MAX,
    ensures
        span_views(final(spans)@) == span_views(old(spans)@) + spans_of_pieces(
            classify(str_views(segments@)),
            base as nat,
        ),
{
    let ghost segs = str_views(segments@);
    let ghost pieces = classify(segs);
    let mut pos: usize = base;
    let mut i: usize = 0;
    assert(segs.skip(0) =~= segs);
    assert(pieces.skip(0) =~= pieces);
    while i < segments.len()
        invariant
            i <= segments.len(),
            segs == str_views(segments@),
            pieces == classify(segs),
            pos + utf8_len(joined(segs.skip(i as int))) <= usize::MAX,
            span_views(spans@) + spans_of_pieces(pieces.skip(i as int), pos as nat) == span_views(
                old(spans)@,
            ) + spans_of_pieces(pieces, base as nat),
        decreases segments.len() - i,
    {
        let seg = &segments[i];
        let n = byte_len(seg.as_str());
        proof {
            assert(segs.skip(i as int).drop_first() =~= segs.skip(i + 1));
            assert(segs.skip(i as int)[0] == seg@);
            lemma_utf8_len_concat(seg@, joined(segs.skip(i + 1)));
            assert(pieces.skip(i as int).drop_first() =~= pieces.skip(i + 1));
            assert(pieces.skip(i as int)[0] == (seg@, !all_white(seg@)));
        }
        let ghost before = span_views(spans@);
        if !is_all_white_space(seg.as_str()) {
            spans.push(WordSpan { word: seg.clone(), start: pos, end: pos + n });
            proof {
                assert(span_views(spans@) =~= before.push((seg@, pos as nat, (pos + n) as nat)));
                assert(spans_of_pieces(pieces.skip(i as int), pos as nat) == seq![
                    (seg@, pos as nat, (pos + n) as nat),
                ] + spans_of_pieces(pieces.skip(i + 1), (pos + n) as nat));
                assert(before + spans_of_pieces(pieces.skip(i as int), pos as nat) =~= span_views(
                    spans@,
                ) + spans_of_pieces(pieces.skip(i + 1), (pos + n) as nat));
            }
        }
        pos = pos + n;
        i += 1;
    }
    assert(pieces.skip(i as int) =~= Seq::<Piece>::empty());
    assert(span_views(spans@) + Seq::<SpanView>::empty() =~= span_views(spans@));
}

/// The spans of the tokens among consecutive word-boundary segments, the first of which
/// starts at byte `base`: whitespace-only segments are dropped but still take their bytes.
pub fn spans_from_segments(segments: &Vec<String>, base: usize) -> (r: Vec<WordSpan>)
    requires
        base + utf8_len(joined(str_views(segments@))) <= usize::MAX,
    ensures
        span_views(r@) == spans_of_pieces(classify(str_views(segments@)), base as nat),
{
    let mut spans: Vec<WordSpan> = Vec::new();
    push_segment_spans(&mut spans, segments, base);
    assert(span_views(Seq::<WordSpan>::empty()) =~= Seq::<SpanView>::empty());
    assert(Seq::<SpanView>::empty() + spans_of_pieces(
        classify(str_views(segments@)),
        base as nat,
    ) =~= spans_of_pieces(classify(str_views(segments@)), base as nat));
    spans
}

/// The word-boundary segments of `text` as pieces.
pub open spec fn default_pieces(text: Seq<char>) -> Seq<Piece> {
    classify(word_bounds_of(text))
}

/// The tokens of `text` under word-boundary segmentation.
pub open spec fn default_spans(text: Seq<char>) -> Seq<SpanView> {
    spans_of_pieces(default_pieces(text), 0)
}

/// Splits `string_content` on Unicode word boundaries, dropping whitespace-only segments;
/// offsets are bytes of `string_content`.
pub fn get_word_spans_default(string_content: &str) -> (r: Result<Vec<WordSpan>, SpanError>)
    ensures
        r is Ok,
        r matches Ok(spans) && span_views(spans@) == default_spans(string_content@),
        is_layout(string_content@, default_pieces(string_content@)),
        r matches Ok(spans) && spans_ordered(span_views(spans@)),
        r matches Ok(spans) && byte_tiling(encode_utf8(string_content@), span_views(spans@)),
{
    let segments = split_word_bounds(string_content);
    // The text's byte length bounds every offset.
    let total = byte_len(string_content);
    assert(total == utf8_len(joined(str_views(segments@))));
    let spans = spans_from_segments(&segments, 0);
    proof {
        lemma_layout_of_segments(string_content@, str_views(segments@));
        lemma_layout_spans_ordered(string_content@, default_pieces(string_content@));
        lemma_layout_tiles(string_content@, default_pieces(string_content@));
    }
    Ok(spans)
}

/// Joining is compatible with concatenation.
pub proof fn lemma_joined_append(a: Seq<Seq<char>>, b: Seq<Seq<char>>)
    ensures
        joined(a + b) == joined(a) + joined(b),
    decreases a.len(),
{
    if a.len() == 0 {
        assert(a + b =~= b);
        assert(joined(a) + joined(b) =~= joined(b));
    } else {
        assert((a + b).drop_first() =~= a.drop_first() + b);
        lemma_joined_append(a.drop_first(), b);
        assert(a[0] + (joined(a.drop_first()) + joined(b)) =~= (a[0] + joined(a.drop_first()))
            + joined(b));
    }
}

/// The spans of two runs of pieces: those of the second start where the bytes of the
/// first end.
pub proof fn lemma_spans_of_pieces_append(a: Seq<Piece>, b: Seq<Piece>, pos: nat)
    ensures
        spans_of_pieces(a + b, pos) == spans_of_pieces(a, pos) + spans_of_pieces(
            b,
            pos + utf8_len(joined(piece_texts(a))),
        ),
    decreases a.len(),
{
    if a.len() == 0 {
        assert(a + b =~= b);
        assert(joined(piece_texts(a)) =~= Seq::<char>::empty());
        assert(spans_of_pieces(a, pos) + spans_of_pieces(b, pos) =~= spans_of_pieces(b, pos));
    } else {
        let next = pos + utf8_len(a[0].0);
        assert((a + b).drop_first() =~= a.drop_first() + b);
        assert((a + b)[0] == a[0]);
        lemma_spans_of_pieces_append(a.drop_first(), b, next);
        assert(piece_texts(a).drop_first() =~= piece_texts(a.drop_first()));
        lemma_utf8_len_concat(a[0].0, joined(piece_texts(a.drop_first())));
        let x = spans_of_pieces(a.drop_first(), next);
        let y = spans_of_pieces(b, pos + utf8_len(joined(piece_texts(a))));
        if a[0].1 {
            assert(seq![(a[0].0, pos, next)] + (x + y) =~= (seq![(a[0].0, pos, next)] + x) + y);
        }
    }
}

/// Layouts of two texts make a layout of their concatenation.
pub proof fn lemma_layout_append(ta: Seq<char>, pa: Seq<Piece>, tb: Seq<char>, pb: Seq<Piece>)
    requires
        is_layout(ta, pa),
        is_layout(tb, pb),
    ensures
        is_layout(ta + tb, pa + pb),
{
    assert(piece_texts(pa + pb) =~= piece_texts(pa) + piece_texts(pb));
    lemma_joined_append(piece_texts(pa), piece_texts(pb));
    let p = pa + pb;
    assert forall|i: int| 0 <= i < p.len() implies (#[trigger] p[i]).0.len() > 0 && (!p[i].1
        ==> all_white(p[i].0)) by {
        if i < pa.len() {
            assert(p[i] == pa[i]);
        } else {
            assert(p[i] == pb[i - pa.len()]);
        }
    }
}

/// A non-empty text as one piece.
pub proof fn lemma_layout_single(t: Seq<char>, kept: bool)
    requires
        t.len() > 0,
        !kept ==> all_white(t),
    ensures
        is_layout(t, seq![(t, kept)]),
{
    let p = seq![(t, kept)];
    assert(piece_texts(p).drop_first() =~= Seq::<Seq<char>>::empty());
    assert(joined(piece_texts(p)) == piece_texts(p)[0] + joined(piece_texts(p).drop_first()));
    assert(t + Seq::<char>::empty() =~= t);
}

/// Non-empty segments that join to a text, classified, are a layout of it.
pub proof fn lemma_layout_of_segments(t: Seq<char>, segs: Seq<Seq<char>>)
    requires
        joined(segs) == t,
        forall|i: int| 0 <= i < segs.len() ==> (#[trigger] segs[i]).len() > 0,
    ensures
        is_layout(t, classify(segs)),
{
    assert(piece_texts(classify(segs)) =~= segs);
}

/// Pieces of a layout that are tokens are non-empty, so its spans are ordered.
pub proof fn lemma_layout_spans_ordered(t: Seq<char>, pieces: Seq<Piece>)
    requires
        is_layout(t, pieces),
    ensures
        spans_ordered(spans_of_pieces(pieces, 0)),
        forall|i: int|
            0 <= i < spans_of_pieces(pieces, 0).len() ==> (#[trigger] spans_of_pieces(
                pieces,
                0,
            )[i]).2 <= utf8_len(t),
{
    lemma_spans_of_pieces_ordered(pieces, 0);
}

/// Whether `c` opens a quoted span.
pub open spec fn is_quote(c: char) -> bool {
    c == '"' || c == '\'' || c == '`'
}

/// The index just past the closing `q` of a quoted span, scanning from index `j`: a
/// backslash takes the character after it along, and a span that is never closed runs
/// to the end of `t`.
pub open spec fn quote_close(t: Seq<char>, q: char, j: int) -> int
    decreases t.len() - j,
{
    if j >= t.len() {
        t.len() as int
    } else if t[j] == '\\' && j + 1 < t.len() {
        quote_close(t, q, j + 2)
    } else if t[j] == q {
        j + 1
    } else {
        quote_close(t, q, j + 1)
    }
}

/// The end of the unquoted run of `t` that continues at index `j`: the first unescaped
/// whitespace or quote character at or after `j`, or the end of `t`. A backslash takes
/// the character after it into the run.
pub open spec fn run_end(t: Seq<char>, j: int) -> int
    decreases t.len() - j,
{
    if j >= t.len() || is_white_space(t[j]) || is_quote(t[j]) {
        j
    } else if t[j] == '\\' && j + 1 < t.len() {
        run_end(t, j + 2)
    } else {
        run_end(t, j + 1)
    }
}

/// A quoted span closes within the text.
pub proof fn lemma_quote_close_bounds(t: Seq<char>, q: char, j: int)
    requires
        0 <= j <= t.len(),
    ensures
        j <= quote_close(t, q, j) <= t.len(),
    decreases t.len() - j,
{
    if j < t.len() {
        if t[j] == '\\' && j + 1 < t.len() {
            lemma_quote_close_bounds(t, q, j + 2);
        } else if t[j] != q {
            lemma_quote_close_bounds(t, q, j + 1);
        }
    }
}

/// An unquoted run ends within the text, and takes at least its first character when
/// that is neither whitespace nor a quote.
pub proof fn lemma_run_end_bounds(t: Seq<char>, j: int)
    requires
        0 <= j <= t.len(),
    ensures
        j <= run_end(t, j) <= t.len(),
        j < t.len() && !is_white_space(t[j]) && !is_quote(t[j]) ==> j < run_end(t, j),
    decreases t.len() - j,
{
    if j < t.len() && !is_white_space(t[j]) && !is_quote(t[j]) {
        if t[j] == '\\' && j + 1 < t.len() {
            lemma_run_end_bounds(t, j + 2);
        } else {
            lemma_run_end_bounds(t, j + 1);
        }
    }
}

/// The pieces of `t` from index `i` on under quote-aware segmentation: a quoted span,
/// quotes included, is one token; a whitespace character is a gap of its own; a run of
/// other characters is cut at word boundaries. Outside a quoted span a backslash escapes
/// the character after it, so an escaped quote opens no span.
pub open spec fn quoted_pieces(t: Seq<char>, i: int) -> Seq<Piece>
    decreases t.len() - i,
{
    if i < 0 || i >= t.len() {
        Seq::empty()
    } else if is_quote(t[i]) {
        proof {
            lemma_quote_close_bounds(t, t[i], i + 1);
        }
        let e = quote_close(t, t[i], i + 1);
        seq![(t.subrange(i, e), true)] + quoted_pieces(t, e)
    } else if is_white_space(t[i]) {
        seq![(seq![t[i]], false)] + quoted_pieces(t, i + 1)
    } else {
        proof {
            lemma_run_end_bounds(t, i);
        }
        let e = run_end(t, i);
        classify(word_bounds_of(t.subrange(i, e))) + quoted_pieces(t, e)
    }
}

/// The tokens of `t` under quote-aware segmentation.
pub open spec fn quoted_spans(t: Seq<char>) -> Seq<SpanView> {
    spans_of_pieces(quoted_pieces(t, 0), 0)
}

/// Whether the pieces of `t` from index `i` on are a layout of the rest of `t`.
pub open spec fn quoted_layout_from(t: Seq<char>, i: int) -> bool {
    is_layout(t.subrange(i, t.len() as int), quoted_pieces(t, i))
}

/// Whether `c` opens a quoted span.
pub fn is_quote_char(c: char) -> (r: bool)
    ensures
        r == is_quote(c),
{
    c == '"' || c == '\'' || c == '`'
}

/// Finds where a quoted span that is open at index `j` closes.
fn find_quote_close(chars: &Vec<char>, q: char, j: usize) -> (e: usize)
    requires
        j <= chars@.len(),
    ensures
        e == quote_close(chars@, q, j as int),
{
    let mut k: usize = j;
    while k < chars.len()
        invariant
            j <= k <= chars@.len(),
            quote_close(chars@, q, k as int) == quote_close(chars@, q, j as int),
        decreases chars.len() - k,
    {
        if chars[k] == '\\' && k + 1 < chars.len() {
            k = k + 2;
        } else if chars[k] == q {
            return k + 1;
        } else {
            k = k + 1;
        }
    }
    k
}

/// Finds where the unquoted run that continues at index `j` ends; a backslash escapes
/// the character after it.
fn find_run_end(chars: &Vec<char>, j: usize) -> (e: usize)
    requires
        j <= chars@.len(),
    ensures
        e == run_end(chars@, j as int),
{
    let mut k: usize = j;
    while k < chars.len()
        invariant
            j <= k <= chars@.len(),
            run_end(chars@, k as int) == run_end(chars@, j as int),
        decreases chars.len() - k,
    {
        let c = chars[k];
        if is_white_space_char(c) || is_quote_char(c) {
            return k;
        }
        if c == '\\' && k + 1 < chars.len() {
            k = k + 2;
        } else {
            k = k + 1;
        }
    }
    k
}

/// Relies on `FromIterator<char>` for `String`: the string of the characters
/// `cs[from..to]`, in order.
#[verifier::external_body]
fn string_from_chars(cs: &Vec<char>, from: usize, to: usize) -> (r: String)
    requires
        from <= to <= cs@.len(),
    ensures
        r@ == cs@.subrange(from as int, to as int),
{
    cs[from..to].iter().collect()
}

/// Splits `string_content` into tokens, keeping each quoted span (`"..."`, `'...'` or
/// `` `...` ``, quotes included) whole and splitting the rest on word boundaries; a quote
/// escaped by a backslash opens no span;
/// offsets are bytes of `string_content`.
pub fn get_word_spans_with_quoted_strings(string_content: &str) -> (r: Result<
    Vec<WordSpan>,
    SpanError,
>)
    ensures
        r is Ok,
        r matches Ok(spans) && span_views(spans@) == quoted_spans(string_content@),
        is_layout(string_content@, quoted_pieces(string_content@, 0)),
        r matches Ok(spans) && spans_ordered(span_views(spans@)),
        r matches Ok(spans) && byte_tiling(encode_utf8(string_content@), span_views(spans@)),
{
    let ghost t = string_content@;
    let chars = chars_of(string_content);
    let total = byte_len(string_content);
    let mut spans: Vec<WordSpan> = Vec::new();
    let mut i: usize = 0;
    let mut pos: usize = 0;
    assert(t.take(0) =~= Seq::<char>::empty());
    assert(span_views(spans@) =~= Seq::<SpanView>::empty());
    assert(Seq::<SpanView>::empty() + quoted_spans(t) =~= quoted_spans(t));
    while i < chars.len()
        invariant
            chars@ == t,
            i <= chars@.len(),
            total == utf8_len(t),
            pos == utf8_len(t.take(i as int)),
            span_views(spans@) + spans_of_pieces(quoted_pieces(t, i as int), pos as nat)
                == quoted_spans(t),
            quoted_layout_from(t, i as int) ==> quoted_layout_from(t, 0),
        decreases chars.len() - i,
    {
        let ch = chars[i];
        let ghost before = span_views(spans@);
        let ghost rest_i = t.subrange(i as int, t.len() as int);
        if is_quote_char(ch) {
            let e = find_quote_close(&chars, ch, i + 1);
            proof {
                lemma_quote_close_bounds(t, ch, i + 1);
            }
            let word = string_from_chars(&chars, i, e);
            let n = byte_len(word.as_str());
            let ghost w = word@;
            proof {
                lemma_quote_close_bounds(t, ch, i + 1);
                assert(t.take(e as int) =~= t.take(i as int) + w);
                lemma_utf8_len_concat(t.take(i as int), w);
                lemma_utf8_len_prefix(t, e as int);
                let qe = quoted_pieces(t, e as int);
                assert(quoted_pieces(t, i as int) == seq![(w, true)] + qe);
                assert((seq![(w, true)] + qe).drop_first() =~= qe);
                assert(spans_of_pieces(quoted_pieces(t, i as int), pos as nat) == seq![
                    (w, pos as nat, (pos + n) as nat),
                ] + spans_of_pieces(qe, (pos + n) as nat));
                assert(rest_i =~= w + t.subrange(e as int, t.len() as int));
                if quoted_layout_from(t, e as int) {
                    lemma_layout_single(w, true);
                    lemma_layout_append(
                        w,
                        seq![(w, true)],
                        t.subrange(e as int, t.len() as int),
                        qe,
                    );
                }
            }
            spans.push(WordSpan { word, start: pos, end: pos + n });
            proof {
                assert(span_views(spans@) =~= before.push((w, pos as nat, (pos + n) as nat)));
                assert(before + (seq![(w, pos as nat, (pos + n) as nat)] + spans_of_pieces(
                    quoted_pieces(t, e as int),
                    (pos + n) as nat,
                )) =~= span_views(spans@) + spans_of_pieces(
                    quoted_pieces(t, e as int),
                    (pos + n) as nat,
                ));
            }
            pos = pos + n;
            i = e;
        } else if is_white_space_char(ch) {
            let n = utf8_width(ch);
            proof {
                crate::span::lemma_utf8_len_take_next(t, i as int);
                lemma_utf8_len_prefix(t, i + 1);
                let qe = quoted_pieces(t, i + 1);
                assert(quoted_pieces(t, i as int) == seq![(seq![ch], false)] + qe);
                assert((seq![(seq![ch], false)] + qe).drop_first() =~= qe);
                lemma_utf8_len_single(ch);
                assert(spans_of_pieces(quoted_pieces(t, i as int), pos as nat) == spans_of_pieces(
                    qe,
                    (pos + n) as nat,
                ));
                assert(rest_i =~= seq![ch] + t.subrange(i + 1, t.len() as int));
                if quoted_layout_from(t, i + 1) {
                    lemma_layout_single(seq![ch], false);
                    lemma_layout_append(
                        seq![ch],
                        seq![(seq![ch], false)],
                        t.subrange(i + 1, t.len() as int),
                        qe,
                    );
                }
            }
            pos = pos + n;
            i = i + 1;
        } else {
            let e = find_run_end(&chars, i);
            proof {
                lemma_run_end_bounds(t, i as int);
            }
            let run = string_from_chars(&chars, i, e);
            let segments = split_word_bounds(run.as_str());
            let n = byte_len(run.as_str());
            let ghost r = run@;
            let ghost segs = str_views(segments@);
            proof {
                assert(t.take(e as int) =~= t.take(i as int) + r);
                lemma_utf8_len_concat(t.take(i as int), r);
                lemma_utf8_len_prefix(t, e as int);
                let qe = quoted_pieces(t, e as int);
                assert(quoted_pieces(t, i as int) == classify(segs) + qe);
                lemma_spans_of_pieces_append(classify(segs), qe, pos as nat);
                assert(piece_texts(classify(segs)) =~= segs);
                assert(rest_i =~= r + t.subrange(e as int, t.len() as int));
                if quoted_layout_from(t, e as int) {
                    lemma_layout_of_segments(r, segs);
                    lemma_layout_append(r, classify(segs), t.subrange(e as int, t.len() as int), qe);
                }
            }
            push_segment_spans(&mut spans, &segments, pos);
            proof {
                assert(before + (spans_of_pieces(classify(segs), pos as nat) + spans_of_pieces(
                    quoted_pieces(t, e as int),
                    (pos + n) as nat,
                )) =~= span_views(spans@) + spans_of_pieces(
                    quoted_pieces(t, e as int),
                    (pos + n) as nat,
                ));
            }
            pos = pos + n;
            i = e;
        }
    }
    proof {
        assert(quoted_pieces(t, i as int) =~= Seq::<Piece>::empty());
        assert(span_views(spans@) + Seq::<SpanView>::empty() =~= span_views(spans@));
        assert(t.subrange(i as int, t.len() as int) =~= Seq::<char>::empty());
        assert(piece_texts(Seq::<Piece>::empty()) =~= Seq::<Seq<char>>::empty());
        assert(quoted_layout_from(t, i as int));
        assert(t.subrange(0, t.len() as int) =~= t);
        lemma_layout_spans_ordered(t, quoted_pieces(t, 0));
        lemma_layout_tiles(t, quoted_pieces(t, 0));
    }
    Ok(spans)
}

/// The tokens of `t` in the chosen mode: quote-aware when `strings_as_tokens`, else by
/// word boundaries alone.
pub open spec fn word_spans(t: Seq<char>, strings_as_tokens: bool) -> Seq<SpanView> {
    if strings_as_tokens {
        quoted_spans(t)
    } else {
        default_spans(t)
    }
}

/// The pieces that the chosen mode cuts `t` into.
pub open spec fn word_pieces(t: Seq<char>, strings_as_tokens: bool) -> Seq<Piece> {
    if strings_as_tokens {
        quoted_pieces(t, 0)
    } else {
        default_pieces(t)
    }
}

/// Splits `string_content` into tokens, quote-aware when `strings_as_tokens` is set.
pub fn get_word_spans(string_content: &str, strings_as_tokens: bool) -> (r: Result<
    Vec<WordSpan>,
    SpanError,
>)
    ensures
        r is Ok,
        r matches Ok(spans) && span_views(spans@) == word_spans(
            string_content@,
            strings_as_tokens,
        ),
        is_layout(string_content@, word_pieces(string_content@, strings_as_tokens)),
        r matches Ok(spans) && spans_ordered(span_views(spans@)),
        r matches Ok(spans) && byte_tiling(encode_utf8(string_content@), span_views(spans@)),
{
    if strings_as_tokens {
        get_word_spans_with_quoted_strings(string_content)
    } else {
        get_word_spans_default(string_content)
    }
}

} // verus!
