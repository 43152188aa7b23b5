//! Spans read back in the bytes of the text: each span is the encoding of its word, and
//! the bytes between spans encode whitespace only.

use crate::segment::{is_layout, joined, piece_texts, spans_of_pieces, Piece};
use crate::span::{
    all_white, is_white_space, lemma_utf8_len_at_least_len, lemma_utf8_len_concat, lemma_utf8_len_encoding,
    utf8_len, SpanView,
};
use vstd::prelude::*;
use vstd::utf8::encode_utf8;

verus! {

/// Whether `bytes` is the UTF-8 encoding of some whitespace-only text.
pub open spec fn is_white_bytes(bytes: Seq<u8>) -> bool {
    exists|g: Seq<char>| all_white(g) && encode_utf8(g) == bytes
}

/// Where the gap before span `i` begins: the end of span `i - 1`, or `base` for the first.
pub open spec fn gap_lo(spans: Seq<SpanView>, i: int, base: nat) -> nat {
    if i == 0 {
        base
    } else {
        spans[i - 1].2
    }
}

/// Where the gap before span `i` ends: the start of span `i`, or `top` after the last span.
pub open spec fn gap_hi(spans: Seq<SpanView>, i: int, top: nat) -> nat {
    if i == spans.len() {
        top
    } else {
        spans[i].1
    }
}

/// `spans`, whose offsets count from `base`, tile `bytes`: each span's range holds the
/// encoding of its word, and the gaps around and between them (possibly empty) hold
/// encoded whitespace.
pub open spec fn tiling_from(bytes: Seq<u8>, spans: Seq<SpanView>, base: nat) -> bool {
    &&& forall|i: int|
        0 <= i < spans.len() ==> base <= (#[trigger] spans[i]).1 < spans[i].2 <= base
            + bytes.len() && bytes.subrange(spans[i].1 - base, spans[i].2 - base) == encode_utf8(
            spans[i].0,
        )
    &&& forall|i: int|
        0 <= i <= spans.len() ==> #[trigger] gap_lo(spans, i, base) <= gap_hi(
            spans,
            i,
            base + bytes.len(),
        ) && is_white_bytes(
            bytes.subrange(
                gap_lo(spans, i, base) - base,
                gap_hi(spans, i, base + bytes.len()) - base,
            ),
        )
}

/// `spans` tile all of `bytes`: spans and whitespace gaps together rebuild it exactly.
pub open spec fn byte_tiling(bytes: Seq<u8>, spans: Seq<SpanView>) -> bool {
    tiling_from(bytes, spans, 0)
}

/// Encoding is compatible with concatenation.
pub proof fn lemma_encode_concat(a: Seq<char>, b: Seq<char>)
    ensures
        encode_utf8(a + b) == encode_utf8(a) + encode_utf8(b),
    decreases a.len(),
{
    if a.len() == 0 {
        assert(a + b =~= b);
        assert(encode_utf8(a) =~= Seq::<u8>::empty());
        assert(encode_utf8(a) + encode_utf8(b) =~= encode_utf8(b));
    } else {
        assert((a + b).drop_first() =~= a.drop_first() + b);
        assert((a + b)[0] == a[0]);
        lemma_encode_concat(a.drop_first(), b);
        let h = vstd::utf8::encode_scalar(a[0] as u32);
        assert(h + (encode_utf8(a.drop_first()) + encode_utf8(b)) =~= (h + encode_utf8(
            a.drop_first(),
        )) + encode_utf8(b));
    }
}

/// The pieces of a layout tile the encoding of their text, with their spans counted
/// from `pos`.
proof fn lemma_pieces_tile(pieces: Seq<Piece>, pos: nat)
    requires
        is_layout(joined(piece_texts(pieces)), pieces),
    ensures
        tiling_from(
            encode_utf8(joined(piece_texts(pieces))),
            spans_of_pieces(pieces, pos),
            pos,
        ),
    decreases pieces.len(),
{
    let t = joined(piece_texts(pieces));
    let b = encode_utf8(t);
    let s = spans_of_pieces(pieces, pos);
    lemma_utf8_len_encoding(t);
    if pieces.len() == 0 {
        assert(t =~= Seq::<char>::empty());
        assert(b =~= Seq::<u8>::empty());
        assert(s =~= Seq::<SpanView>::empty());
        assert forall|i: int| 0 <= i <= s.len() implies #[trigger] gap_lo(s, i, pos) <= gap_hi(
            s,
            i,
            pos + b.len(),
        ) && is_white_bytes(
            b.subrange(gap_lo(s, i, pos) - pos, gap_hi(s, i, pos + b.len()) - pos),
        ) by {
            assert(encode_utf8(Seq::<char>::empty()) =~= b.subrange(0, 0));
        }
    } else {
        let p = pieces[0];
        let rest = pieces.drop_first();
        let tr = joined(piece_texts(rest));
        let br = encode_utf8(tr);
        let e0 = encode_utf8(p.0);
        let w = utf8_len(p.0);
        let next = pos + w;
        let sr = spans_of_pieces(rest, next);
        assert(piece_texts(pieces).drop_first() =~= piece_texts(rest));
        assert(t == p.0 + tr);
        lemma_encode_concat(p.0, tr);
        assert(b == e0 + br);
        lemma_utf8_len_encoding(p.0);
        lemma_utf8_len_encoding(tr);
        assert(pieces[0] == p);
        assert(p.0.len() > 0);
        lemma_utf8_len_at_least_len(p.0);
        assert forall|i: int| 0 <= i < rest.len() implies (#[trigger] rest[i]).0.len() > 0 && (
        !rest[i].1 ==> all_white(rest[i].0)) by {
            assert(rest[i] == pieces[i + 1]);
        }
        lemma_pieces_tile(rest, next);
        let top = pos + b.len();
        assert(top == next + br.len());
        if p.1 {
            assert(s == seq![(p.0, pos, next)] + sr);
            assert forall|i: int| 0 <= i < s.len() implies pos <= (#[trigger] s[i]).1 < s[i].2
                <= top && b.subrange(s[i].1 - pos, s[i].2 - pos) == encode_utf8(s[i].0) by {
                if i == 0 {
                    assert(b.subrange(0, w as int) =~= e0);
                } else {
                    assert(s[i] == sr[i - 1]);
                    assert(b.subrange(s[i].1 - pos, s[i].2 - pos) =~= br.subrange(
                        sr[i - 1].1 - next,
                        sr[i - 1].2 - next,
                    ));
                }
            }
            assert forall|i: int| 0 <= i <= s.len() implies #[trigger] gap_lo(s, i, pos)
                <= gap_hi(s, i, top) && is_white_bytes(
                b.subrange(gap_lo(s, i, pos) - pos, gap_hi(s, i, top) - pos),
            ) by {
                if i == 0 {
                    assert(encode_utf8(Seq::<char>::empty()) =~= b.subrange(0, 0));
                } else {
                    assert(gap_lo(s, i, pos) == gap_lo(sr, i - 1, next)) by {
                        if i > 1 {
                            assert(s[i - 1] == sr[i - 2]);
                        }
                    }
                    assert(gap_hi(s, i, top) == gap_hi(sr, i - 1, top)) by {
                        if i < s.len() {
                            assert(s[i] == sr[i - 1]);
                        }
                    }
                    assert(gap_lo(sr, i - 1, next) <= gap_hi(sr, i - 1, top));
                    assert(b.subrange(gap_lo(s, i, pos) - pos, gap_hi(s, i, top) - pos)
                        =~= br.subrange(
                        gap_lo(sr, i - 1, next) - next,
                        gap_hi(sr, i - 1, top) - next,
                    ));
                }
            }
        } else {
            assert(s == sr);
            assert(all_white(p.0));
            assert forall|i: int| 0 <= i < s.len() implies pos <= (#[trigger] s[i]).1 < s[i].2
                <= top && b.subrange(s[i].1 - pos, s[i].2 - pos) == encode_utf8(s[i].0) by {
                assert(b.subrange(s[i].1 - pos, s[i].2 - pos) =~= br.subrange(
                    sr[i].1 - next,
                    sr[i].2 - next,
                ));
            }
            assert forall|i: int| 0 <= i <= s.len() implies #[trigger] gap_lo(s, i, pos)
                <= gap_hi(s, i, top) && is_white_bytes(
                b.subrange(gap_lo(s, i, pos) - pos, gap_hi(s, i, top) - pos),
            ) by {
                assert(gap_hi(s, i, top) == gap_hi(sr, i, top));
                assert(gap_lo(sr, i, next) <= gap_hi(sr, i, top));
                let inner = br.subrange(gap_lo(sr, i, next) - next, gap_hi(sr, i, top) - next);
                assert(is_white_bytes(inner));
                if i == 0 {
                    let g = choose|g: Seq<char>| all_white(g) && encode_utf8(g) == inner;
                    lemma_encode_concat(p.0, g);
                    assert(all_white(p.0 + g)) by {
                        assert forall|k: int| 0 <= k < (p.0 + g).len() implies is_white_space(
                            #[trigger] (p.0 + g)[k],
                        ) by {
                            if k < p.0.len() {
                                assert((p.0 + g)[k] == p.0[k]);
                                assert(is_white_space(p.0[k]));
                            } else {
                                assert((p.0 + g)[k] == g[k - p.0.len()]);
                                assert(is_white_space(g[k - p.0.len()]));
                            }
                        }
                    }
                    assert(b.subrange(0, gap_hi(s, i, top) - pos) =~= e0 + inner);
                    assert(encode_utf8(p.0 + g) == b.subrange(0, gap_hi(s, i, top) - pos));
                } else {
                    assert(gap_lo(s, i, pos) == gap_lo(sr, i, next));
                    assert(b.subrange(gap_lo(s, i, pos) - pos, gap_hi(s, i, top) - pos) =~= inner);
                }
            }
        }
    }
}

/// The spans of a layout of `t` tile the bytes of `t`: every span is the encoding of its
/// word at its byte range, and the bytes before, between and after the spans encode
/// whitespace.
pub proof fn lemma_layout_tiles(t: Seq<char>, pieces: Seq<Piece>)
    requires
        is_layout(t, pieces),
    ensures
        byte_tiling(encode_utf8(t), spans_of_pieces(pieces, 0)),
{
    lemma_pieces_tile(pieces, 0);
}

} // verus!
