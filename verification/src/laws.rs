//! Properties of the justification model, proved once and for all: line
//! widths, word preservation, greedy packing determinism, and the fairness of
//! the space distribution.

use vstd::prelude::*;

use crate::model::base_gap;
use crate::model::extra_gaps;
use crate::model::extract_rec;
use crate::model::extract_words;
use crate::model::extracted_words;
use crate::model::first_space;
use crate::model::flatten_packed;
use crate::model::gap_count;
use crate::model::gap_size;
use crate::model::justified_lines;
use crate::model::justify;
use crate::model::lemma_split_words_space_free;
use crate::model::lemma_sum_lens_push;
use crate::model::lemma_sum_lens_singleton;
use crate::model::pack;
use crate::model::pack_rec;
use crate::model::render_from;
use crate::model::render_line;
use crate::model::space_free;
use crate::model::spaces;
use crate::model::split_words;
use crate::model::sum_lens;
use crate::model::total_padding;
use crate::model::word_fits;
use crate::model::words_fit;
use crate::model::words_nonempty;

use vstd::arithmetic::div_mod::lemma_div_by_self;
use vstd::arithmetic::div_mod::lemma_div_is_ordered;
use vstd::arithmetic::div_mod::lemma_fundamental_div_mod;
use vstd::arithmetic::div_mod::lemma_mod_bound;

verus! {

/// A finalized line is well formed: at least one word, and the words with one
/// mandatory space per gap fit within `width`.
pub open spec fn line_ok(line: Seq<Seq<char>>, width: int) -> bool {
    line.len() >= 1 && sum_lens(line) + line.len() - 1 <= width
}

/// An empty input yields an empty output document, for every valid width.
pub proof fn lemma_empty_input(width: int)
    requires
        width >= 1,
    ensures
        justify(Seq::empty(), width) == Seq::<char>::empty(),
{
    let e = Seq::<char>::empty();
    assert(first_space(e) == 0);
    assert(split_words(e) == seq![e]);
    assert(justified_lines(e, width) == Seq::<Seq<char>>::empty());
}

/// Greedy packing only ever finalizes well-formed lines, and words that are
/// non-empty and space-free stay so on every line.
proof fn lemma_pack_rec_ok(words: Seq<Seq<char>>, width: int, buf: Seq<Seq<char>>)
    requires
        line_ok(buf, width),
        words_fit(words, width),
    ensures
        forall|k: int|
            0 <= k < pack_rec(words, width, buf).len() ==> line_ok(
                #[trigger] pack_rec(words, width, buf)[k],
                width,
            ),
        words_nonempty(buf) && space_free_all(buf) && words_nonempty(words) && space_free_all(
            words,
        ) ==> forall|k: int|
            0 <= k < pack_rec(words, width, buf).len() ==> words_nonempty(
                #[trigger] pack_rec(words, width, buf)[k],
            ) && space_free_all(pack_rec(words, width, buf)[k]),
    decreases words.len(),
{
    let res = pack_rec(words, width, buf);
    if words.len() == 0 {
        assert(res == seq![buf]);
        assert(res[0] == buf);
    } else {
        let w = words[0];
        let tail = words.drop_first();
        assert(w.len() <= width);
        assert forall|i: int| 0 <= i < tail.len() implies (#[trigger] tail[i]).len() <= width by {
            assert(tail[i] == words[i + 1]);
        }
        if !word_fits(buf, w, width) {
            lemma_sum_lens_singleton(w);
            lemma_pack_rec_ok(tail, width, seq![w]);
            let rec = pack_rec(tail, width, seq![w]);
            assert(res == seq![buf] + rec);
            assert(res[0] == buf);
            assert forall|k: int| 1 <= k < res.len() implies res[k] == rec[k - 1] by {}
            if words_nonempty(buf) && space_free_all(buf) && words_nonempty(words)
                && space_free_all(words) {
                assert(words_nonempty(seq![w]) && space_free_all(seq![w])) by {
                    assert(seq![w][0] == words[0]);
                }
                assert(words_nonempty(tail) && space_free_all(tail)) by {
                    assert forall|i: int|
                        0 <= i < tail.len() implies (#[trigger] tail[i]).len() >= 1 && space_free(
                        tail[i],
                    ) by {
                        assert(tail[i] == words[i + 1]);
                    }
                }
            }
        } else {
            lemma_sum_lens_push(buf, w);
            lemma_pack_rec_ok(tail, width, buf.push(w));
            assert(res == pack_rec(tail, width, buf.push(w)));
            if words_nonempty(buf) && space_free_all(buf) && words_nonempty(words)
                && space_free_all(words) {
                assert(words_nonempty(buf.push(w)) && space_free_all(buf.push(w))) by {
                    assert forall|i: int|
                        0 <= i < buf.push(w).len() implies (#[trigger] buf.push(w)[i]).len() >= 1
                        && space_free(buf.push(w)[i]) by {
                        if i < buf.len() {
                            assert(buf.push(w)[i] == buf[i]);
                        } else {
                            assert(buf.push(w)[i] == words[0]);
                        }
                    }
                }
                assert(words_nonempty(tail) && space_free_all(tail)) by {
                    assert forall|i: int|
                        0 <= i < tail.len() implies (#[trigger] tail[i]).len() >= 1 && space_free(
                        tail[i],
                    ) by {
                        assert(tail[i] == words[i + 1]);
                    }
                }
            }
        }
    }
}

/// Every word of `ws` is free of spaces.
pub open spec fn space_free_all(ws: Seq<Seq<char>>) -> bool {
    forall|i: int| 0 <= i < ws.len() ==> space_free(#[trigger] ws[i])
}

/// Every line the greedy packing of a fitting word sequence produces is well
/// formed.
proof fn lemma_pack_ok(words: Seq<Seq<char>>, width: int)
    requires
        words.len() >= 1,
        words_fit(words, width),
    ensures
        forall|k: int|
            0 <= k < pack(words, width).len() ==> line_ok(#[trigger] pack(words, width)[k], width),
        words_nonempty(words) && space_free_all(words) ==> forall|k: int|
            0 <= k < pack(words, width).len() ==> words_nonempty(#[trigger] pack(words, width)[k])
                && space_free_all(pack(words, width)[k]),
{
    let w = words[0];
    let tail = words.drop_first();
    lemma_sum_lens_singleton(w);
    assert(line_ok(seq![w], width));
    assert forall|i: int| 0 <= i < tail.len() implies (#[trigger] tail[i]).len() <= width by {
        assert(tail[i] == words[i + 1]);
    }
    lemma_pack_rec_ok(tail, width, seq![w]);
    if words_nonempty(words) && space_free_all(words) {
        assert(words_nonempty(seq![w]) && space_free_all(seq![w])) by {
            assert(seq![w][0] == words[0]);
        }
        assert forall|i: int|
            0 <= i < tail.len() implies (#[trigger] tail[i]).len() >= 1 && space_free(tail[i]) by {
            assert(tail[i] == words[i + 1]);
        }
    }
}

/// The sum of the gap widths from gap `i` on.
spec fn gap_sum(parts: Seq<Seq<char>>, width: int, i: int) -> int
    decreases gap_count(parts) - i,
{
    if i < 0 || i >= gap_count(parts) {
        0
    } else {
        gap_size(parts, width, i) + gap_sum(parts, width, i + 1)
    }
}

/// Closed form of `gap_sum`: the remaining gaps share the base width, and
/// those before `extra_gaps` carry one more space each.
proof fn lemma_gap_sum_formula(parts: Seq<Seq<char>>, width: int, i: int)
    requires
        parts.len() >= 2,
        0 <= i <= gap_count(parts),
    ensures
        gap_sum(parts, width, i) == base_gap(parts, width) * (gap_count(parts) - i) + (
        if i < extra_gaps(parts, width) {
            extra_gaps(parts, width) - i
        } else {
            0int
        }),
    decreases gap_count(parts) - i,
{
    let g = gap_count(parts);
    let b = base_gap(parts, width);
    let e = extra_gaps(parts, width);
    lemma_mod_bound(total_padding(parts, width), g);
    if i == g {
        assert(b * (g - i) == 0) by (nonlinear_arith)
            requires
                i == g,
        ;
    } else {
        lemma_gap_sum_formula(parts, width, i + 1);
        assert(b * (g - i) == b + b * (g - (i + 1))) by (nonlinear_arith);
    }
}

/// A well-formed multi-word line has non-negative padding shares.
proof fn lemma_gap_arith(parts: Seq<Seq<char>>, width: int)
    requires
        parts.len() >= 2,
        line_ok(parts, width),
    ensures
        total_padding(parts, width) >= gap_count(parts),
        base_gap(parts, width) >= 1,
        0 <= extra_gaps(parts, width) < gap_count(parts),
        base_gap(parts, width) * gap_count(parts) + extra_gaps(parts, width) == total_padding(
            parts,
            width,
        ),
{
    let g = gap_count(parts);
    let t = total_padding(parts, width);
    lemma_div_is_ordered(g, t, g);
    lemma_div_by_self(g);
    lemma_mod_bound(t, g);
    lemma_fundamental_div_mod(t, g);
    assert(t == g * (t / g) + t % g);
    assert(g * (t / g) == (t / g) * g) by (nonlinear_arith);
}

/// The rendered tail of a multi-word line is as long as its words and gaps
/// together.
proof fn lemma_render_from_len(parts: Seq<Seq<char>>, width: int, i: int)
    requires
        parts.len() >= 2,
        line_ok(parts, width),
        0 <= i < parts.len(),
    ensures
        render_from(parts, width, i).len() == sum_lens(parts.skip(i)) + gap_sum(parts, width, i),
    decreases parts.len() - i,
{
    lemma_gap_arith(parts, width);
    if i == parts.len() - 1 {
        assert(parts.skip(i) =~= seq![parts[i]]);
        lemma_sum_lens_singleton(parts[i]);
    } else {
        lemma_render_from_len(parts, width, i + 1);
        assert(parts.skip(i).drop_first() =~= parts.skip(i + 1));
        assert(parts.skip(i)[0] == parts[i]);
        assert(spaces(gap_size(parts, width, i)).len() == gap_size(parts, width, i));
    }
}

/// Every line a well-formed buffer renders to is exactly `width` characters
/// long.
proof fn lemma_render_line_len(parts: Seq<Seq<char>>, width: int)
    requires
        line_ok(parts, width),
    ensures
        render_line(parts, width).len() == width,
{
    if parts.len() == 1 {
        lemma_sum_lens_singleton(parts[0]);
        assert(parts =~= seq![parts[0]]);
    } else {
        lemma_render_from_len(parts, width, 0);
        lemma_gap_sum_formula(parts, width, 0);
        lemma_gap_arith(parts, width);
        assert(parts.skip(0) =~= parts);
    }
}

/// The structure of the lines `pack_rec` emits: the open buffer is a prefix
/// of the first line, every word placed after it fit on its line at the
/// moment it was placed, and the first word of each further line did not fit
/// on the line before it.
proof fn lemma_pack_rec_greedy(words: Seq<Seq<char>>, width: int, buf: Seq<Seq<char>>)
    ensures
        ({
            let res = pack_rec(words, width, buf);
            &&& res.len() >= 1
            &&& res[0].len() >= buf.len()
            &&& res[0].take(buf.len() as int) == buf
            &&& forall|j: int|
                buf.len() <= j < res[0].len() ==> word_fits(
                    res[0].take(j),
                    #[trigger] res[0][j],
                    width,
                )
            &&& forall|k: int, j: int|
                1 <= k < res.len() && 1 <= j < res[k].len() ==> word_fits(
                    res[k].take(j),
                    #[trigger] res[k][j],
                    width,
                )
            &&& forall|k: int|
                1 <= k < res.len() ==> !word_fits(res[k - 1], (#[trigger] res[k])[0], width)
        }),
    decreases words.len(),
{
    let res = pack_rec(words, width, buf);
    if words.len() == 0 {
        assert(res == seq![buf]);
        assert(res[0] == buf);
        assert(res[0].take(buf.len() as int) =~= buf);
    } else {
        let w = words[0];
        let tail = words.drop_first();
        if !word_fits(buf, w, width) {
            let rec = pack_rec(tail, width, seq![w]);
            lemma_pack_rec_greedy(tail, width, seq![w]);
            assert(res == seq![buf] + rec);
            assert(res[0] == buf);
            assert(res[0].take(buf.len() as int) =~= buf);
            assert forall|k: int| 1 <= k < res.len() implies res[k] == rec[k - 1] by {}
            assert(rec[0].take(1) == seq![w]);
            assert(rec[0][0] == rec[0].take(1)[0]);
            assert(res[1][0] == w);
            assert forall|k: int, j: int|
                1 <= k < res.len() && 1 <= j < res[k].len() implies word_fits(
                res[k].take(j),
                #[trigger] res[k][j],
                width,
            ) by {
                assert(res[k] == rec[k - 1]);
                if k == 1 {
                    assert(word_fits(rec[0].take(j), rec[0][j], width));
                } else {
                    assert(word_fits(rec[k - 1].take(j), rec[k - 1][j], width));
                }
            }
            assert forall|k: int| 1 <= k < res.len() implies !word_fits(
                res[k - 1],
                (#[trigger] res[k])[0],
                width,
            ) by {
                if k >= 2 {
                    assert(res[k] == rec[k - 1] && res[k - 1] == rec[k - 2]);
                    assert(!word_fits(rec[k - 2], rec[k - 1][0], width));
                }
            }
        } else {
            let buf2 = buf.push(w);
            let rec = pack_rec(tail, width, buf2);
            lemma_pack_rec_greedy(tail, width, buf2);
            assert(res == rec);
            assert(res[0].take(buf2.len() as int) == buf2);
            assert(res[0].take(buf.len() as int) =~= buf) by {
                assert forall|t: int| 0 <= t < buf.len() implies res[0].take(buf.len() as int)[t]
                    == buf[t] by {
                    assert(res[0][t] == res[0].take(buf2.len() as int)[t]);
                    assert(buf2[t] == buf[t]);
                }
            }
            assert forall|j: int| buf.len() <= j < res[0].len() implies word_fits(
                res[0].take(j),
                #[trigger] res[0][j],
                width,
            ) by {
                if j == buf.len() {
                    assert(res[0][j] == res[0].take(buf2.len() as int)[j]);
                    assert(res[0][j] == w);
                    assert(word_fits(buf, w, width));
                } else {
                    assert(word_fits(res[0].take(j), res[0][j], width));
                }
            }
        }
    }
}

/// Greedy packing determinism: on every line every word after the first fit
/// behind those already placed at the moment it was placed, and each line
/// after the first opens with a word that did not fit on the line before it.
pub proof fn lemma_greedy_packing(words: Seq<Seq<char>>, width: int)
    requires
        words.len() >= 1,
    ensures
        pack(words, width).len() >= 1,
        forall|k: int, j: int|
            0 <= k < pack(words, width).len() && 1 <= j < pack(words, width)[k].len()
                ==> word_fits(
                pack(words, width)[k].take(j),
                #[trigger] pack(words, width)[k][j],
                width,
            ),
        forall|k: int|
            1 <= k < pack(words, width).len() ==> !word_fits(
                pack(words, width)[k - 1],
                (#[trigger] pack(words, width)[k])[0],
                width,
            ),
{
    let packed = pack(words, width);
    let w = words[0];
    let tail = words.drop_first();
    lemma_pack_rec_greedy(tail, width, seq![w]);
    assert(packed == pack_rec(tail, width, seq![w]));
    assert forall|k: int, j: int|
        0 <= k < packed.len() && 1 <= j < packed[k].len() implies word_fits(
        packed[k].take(j),
        #[trigger] packed[k][j],
        width,
    ) by {
        if k == 0 {
            assert(seq![w].len() == 1);
            assert(word_fits(packed[0].take(j), packed[0][j], width));
        }
    }
}

/// Space distribution fairness: on a multi-word line the gap widths never
/// grow from left to right, differ by at most one over the whole line, and
/// every gap holds at least one space.
pub proof fn lemma_gap_fairness(parts: Seq<Seq<char>>, width: int)
    requires
        parts.len() >= 2,
        line_ok(parts, width),
    ensures
        forall|i: int, j: int|
            0 <= i <= j < gap_count(parts) ==> #[trigger] gap_size(parts, width, j)
                <= #[trigger] gap_size(parts, width, i) <= gap_size(parts, width, j) + 1,
        forall|i: int| 0 <= i < gap_count(parts) ==> #[trigger] gap_size(parts, width, i) >= 1,
{
    lemma_gap_arith(parts, width);
}

/// What a finished partial word contributes to an extraction: nothing when it
/// is empty, itself otherwise.
spec fn emit(cur: Seq<char>) -> Seq<Seq<char>> {
    if cur.len() == 0 {
        Seq::empty()
    } else {
        seq![cur]
    }
}

/// Reading a space-free run appends it to the partial word.
proof fn lemma_extract_over_word(w: Seq<char>, rest: Seq<char>, cur: Seq<char>)
    requires
        space_free(w),
    ensures
        extract_rec(w + rest, cur) == extract_rec(rest, cur + w),
    decreases w.len(),
{
    if w.len() == 0 {
        assert(w + rest =~= rest);
        assert(cur + w =~= cur);
    } else {
        let s = w + rest;
        assert(s[0] == w[0]);
        assert(s[0] != ' ');
        assert(s.drop_first() =~= w.drop_first() + rest);
        assert(space_free(w.drop_first())) by {
            assert forall|t: int| 0 <= t < w.drop_first().len() implies w.drop_first()[t]
                != ' ' by {
                assert(w.drop_first()[t] == w[t + 1]);
            }
        }
        lemma_extract_over_word(w.drop_first(), rest, cur.push(w[0]));
        assert(cur.push(w[0]) + w.drop_first() =~= cur + w);
    }
}

/// Reading a non-empty run of spaces finishes the partial word.
proof fn lemma_extract_over_spaces(n: int, rest: Seq<char>, cur: Seq<char>)
    requires
        n >= 1,
    ensures
        extract_rec(spaces(n) + rest, cur) == emit(cur) + extract_rec(rest, Seq::empty()),
    decreases n,
{
    let s = spaces(n) + rest;
    assert(s[0] == ' ');
    assert(s.drop_first() =~= spaces(n - 1) + rest);
    if n == 1 {
        assert(spaces(0) + rest =~= rest);
    } else {
        lemma_extract_over_spaces(n - 1, rest, Seq::empty());
        assert(emit(Seq::empty()) + extract_rec(rest, Seq::empty()) =~= extract_rec(
            rest,
            Seq::empty(),
        ));
    }
}

/// Extracting the rendered tail of a multi-word line recovers its words.
proof fn lemma_extract_render_from(parts: Seq<Seq<char>>, width: int, i: int)
    requires
        parts.len() >= 2,
        line_ok(parts, width),
        words_nonempty(parts),
        space_free_all(parts),
        0 <= i < parts.len(),
    ensures
        extract_words(render_from(parts, width, i)) == parts.skip(i),
    decreases parts.len() - i,
{
    lemma_gap_arith(parts, width);
    if i == parts.len() - 1 {
        assert(render_from(parts, width, i) == parts[i]);
        assert(parts[i] + Seq::<char>::empty() =~= parts[i]);
        lemma_extract_over_word(parts[i], Seq::empty(), Seq::empty());
        assert(Seq::<char>::empty() + parts[i] =~= parts[i]);
        assert(extract_rec(Seq::empty(), parts[i]) == seq![parts[i]]);
        assert(parts.skip(i) =~= seq![parts[i]]);
    } else {
        let g = gap_size(parts, width, i);
        let tail = render_from(parts, width, i + 1);
        assert(render_from(parts, width, i) == parts[i] + spaces(g) + tail);
        assert(parts[i] + spaces(g) + tail =~= parts[i] + (spaces(g) + tail));
        lemma_extract_over_word(parts[i], spaces(g) + tail, Seq::empty());
        assert(Seq::<char>::empty() + parts[i] =~= parts[i]);
        lemma_extract_over_spaces(g, tail, parts[i]);
        lemma_extract_render_from(parts, width, i + 1);
        assert(emit(parts[i]) == seq![parts[i]]);
        assert(seq![parts[i]] + parts.skip(i + 1) =~= parts.skip(i));
    }
}

/// Extracting a finalized line recovers exactly the words it was built from.
proof fn lemma_extract_line(parts: Seq<Seq<char>>, width: int)
    requires
        line_ok(parts, width),
        words_nonempty(parts),
        space_free_all(parts),
    ensures
        extract_words(render_line(parts, width)) == parts,
{
    if parts.len() == 1 {
        lemma_sum_lens_singleton(parts[0]);
        assert(parts =~= seq![parts[0]]);
        let t = width - sum_lens(parts);
        if t == 0 {
            assert(parts[0] + spaces(0) =~= parts[0]);
            assert(parts[0] + Seq::<char>::empty() =~= parts[0]);
            lemma_extract_over_word(parts[0], Seq::empty(), Seq::empty());
            assert(Seq::<char>::empty() + parts[0] =~= parts[0]);
            assert(extract_rec(Seq::empty(), parts[0]) == seq![parts[0]]);
        } else {
            lemma_extract_over_word(parts[0], spaces(t), Seq::empty());
            assert(Seq::<char>::empty() + parts[0] =~= parts[0]);
            assert(spaces(t) + Seq::<char>::empty() =~= spaces(t));
            lemma_extract_over_spaces(t, Seq::empty(), parts[0]);
            assert(extract_rec(Seq::empty(), Seq::<char>::empty())
                =~= Seq::<Seq<char>>::empty());
            assert(emit(parts[0]) + Seq::<Seq<char>>::empty() =~= seq![parts[0]]);
        }
    } else {
        lemma_extract_render_from(parts, width, 0);
        assert(parts.skip(0) =~= parts);
    }
}

/// The packed lines carry the open buffer and then the remaining words, in
/// order and nothing else.
proof fn lemma_flatten_pack_rec(words: Seq<Seq<char>>, width: int, buf: Seq<Seq<char>>)
    ensures
        flatten_packed(pack_rec(words, width, buf)) == buf + words,
    decreases words.len(),
{
    let res = pack_rec(words, width, buf);
    if words.len() == 0 {
        assert(res == seq![buf]);
        assert(res[0] == buf);
        assert(res.drop_first() =~= Seq::<Seq<Seq<char>>>::empty());
        assert(flatten_packed(Seq::<Seq<Seq<char>>>::empty()) == Seq::<Seq<char>>::empty());
        assert(flatten_packed(res) =~= buf + words);
    } else {
        let w = words[0];
        let tail = words.drop_first();
        if !word_fits(buf, w, width) {
            let rec = pack_rec(tail, width, seq![w]);
            lemma_flatten_pack_rec(tail, width, seq![w]);
            assert(res == seq![buf] + rec);
            assert(res[0] == buf);
            assert(res.drop_first() =~= rec);
            assert(flatten_packed(res) == buf + flatten_packed(rec));
            assert(buf + (seq![w] + tail) =~= buf + words);
        } else {
            lemma_flatten_pack_rec(tail, width, buf.push(w));
            assert(buf.push(w) + tail =~= buf + words);
        }
    }
}

/// Extracting every rendered line of a packed document yields all its words.
proof fn lemma_extracted_render(packed: Seq<Seq<Seq<char>>>, width: int)
    requires
        forall|k: int|
            0 <= k < packed.len() ==> line_ok(#[trigger] packed[k], width) && words_nonempty(
                packed[k],
            ) && space_free_all(packed[k]),
    ensures
        extracted_words(
            packed.map_values(|parts: Seq<Seq<char>>| render_line(parts, width)),
        ) == flatten_packed(packed),
    decreases packed.len(),
{
    let mapped = packed.map_values(|parts: Seq<Seq<char>>| render_line(parts, width));
    if packed.len() == 0 {
        assert(mapped =~= Seq::<Seq<char>>::empty());
    } else {
        assert(mapped[0] == render_line(packed[0], width));
        lemma_extract_line(packed[0], width);
        assert forall|k: int| 0 <= k < packed.drop_first().len() implies line_ok(
            #[trigger] packed.drop_first()[k],
            width,
        ) && words_nonempty(packed.drop_first()[k]) && space_free_all(
            packed.drop_first()[k],
        ) by {
            assert(packed.drop_first()[k] == packed[k + 1]);
        }
        lemma_extracted_render(packed.drop_first(), width);
        assert(mapped.drop_first() =~= packed.drop_first().map_values(
            |parts: Seq<Seq<char>>| render_line(parts, width),
        ));
    }
}

/// No word is split across lines and none is altered: extracting the words of
/// any output line yields, verbatim, the words the packing placed there.
/// Stated for inputs whose words are all non-empty, that is, inputs without
/// adjacent, leading or trailing spaces.
pub proof fn lemma_no_word_split(input: Seq<char>, width: int)
    requires
        width >= 1,
        words_fit(split_words(input), width),
        words_nonempty(split_words(input)),
    ensures
        justified_lines(input, width).len() == pack(split_words(input), width).len(),
        forall|k: int|
            0 <= k < justified_lines(input, width).len() ==> extract_words(
                #[trigger] justified_lines(input, width)[k],
            ) == pack(split_words(input), width)[k],
{
    let words = split_words(input);
    let packed = pack(words, width);
    let jl = justified_lines(input, width);
    assert(words[0].len() >= 1);
    lemma_split_words_space_free(input);
    lemma_pack_ok(words, width);
    assert forall|k: int| 0 <= k < jl.len() implies extract_words(#[trigger] jl[k])
        == packed[k] by {
        assert(jl[k] == render_line(packed[k], width));
        lemma_extract_line(packed[k], width);
    }
}

/// Word order preservation: splitting the output lines on runs of spaces and
/// discarding the empty fragments reproduces the input's word sequence
/// exactly. Stated for inputs whose words are all non-empty, that is, inputs
/// without adjacent, leading or trailing spaces.
pub proof fn lemma_word_order(input: Seq<char>, width: int)
    requires
        width >= 1,
        words_fit(split_words(input), width),
        words_nonempty(split_words(input)),
    ensures
        extracted_words(justified_lines(input, width)) == split_words(input),
{
    let words = split_words(input);
    let packed = pack(words, width);
    assert(words[0].len() >= 1);
    lemma_split_words_space_free(input);
    lemma_pack_ok(words, width);
    lemma_extracted_render(packed, width);
    lemma_flatten_pack_rec(words.drop_first(), width, seq![words[0]]);
    assert(seq![words[0]] + words.drop_first() =~= words);
}

/// Every line of a non-empty output document holds exactly `width`
/// characters, for every input whose words fit.
pub proof fn lemma_line_width(input: Seq<char>, width: int)
    requires
        width >= 1,
        words_fit(split_words(input), width),
    ensures
        forall|k: int|
            0 <= k < justified_lines(input, width).len() ==> (#[trigger] justified_lines(
                input,
                width,
            )[k]).len() == width,
{
    let words = split_words(input);
    if words[0].len() != 0 {
        lemma_pack_ok(words, width);
        let packed = pack(words, width);
        let jl = justified_lines(input, width);
        assert forall|k: int| 0 <= k < jl.len() implies (#[trigger] jl[k]).len() == width by {
            assert(jl[k] == render_line(packed[k], width));
            lemma_render_line_len(packed[k], width);
        }
    }
}

} // verus!
