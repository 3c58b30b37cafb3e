//! Mathematical model of fixed-width justification: splitting the input into
//! words, greedy line packing, space distribution, and line joining.

use vstd::prelude::*;

verus! {

/// A run of `n` space characters (empty when `n <= 0`).
pub open spec fn spaces(n: int) -> Seq<char> {
    Seq::new(if n <= 0 { 0nat } else { n as nat }, |i: int| ' ')
}

/// Index of the first space character of `s`, or `s.len()` when `s` holds none.
pub open spec fn first_space(s: Seq<char>) -> nat
    decreases s.len(),
{
    if s.len() == 0 {
        0
    } else if s[0] == ' ' {
        0
    } else {
        1 + first_space(s.drop_first())
    }
}

/// `s` split on single space characters. Empty fragments are kept (two
/// adjacent spaces yield one, as does a leading or trailing space), and the
/// result always has at least one element.
pub open spec fn split_words(s: Seq<char>) -> Seq<Seq<char>>
    decreases s.len(),
{
    let i = first_space(s) as int;
    if i >= s.len() {
        seq![s]
    } else {
        seq![s.subrange(0, i)] + split_words(s.subrange(i + 1, s.len() as int))
    }
}

/// Total character count of a sequence of words, spaces not counted.
pub open spec fn sum_lens(ws: Seq<Seq<char>>) -> int
    decreases ws.len(),
{
    if ws.len() == 0 {
        0
    } else {
        ws[0].len() + sum_lens(ws.drop_first())
    }
}

/// The greedy fit test: `w` may join the line `buf` when the characters
/// already there, one mandatory space per gap (`buf.len()` gaps once `w` is
/// appended), and `w` itself still fit within `width`.
pub open spec fn word_fits(buf: Seq<Seq<char>>, w: Seq<char>, width: int) -> bool {
    sum_lens(buf) + buf.len() + w.len() <= width
}

/// Greedy packing of the remaining `words`, the line `buf` being under
/// construction: a word joins the current line when it fits, otherwise that
/// line is finalized and the word opens a fresh one. The last line is
/// finalized like every other.
pub open spec fn pack_rec(words: Seq<Seq<char>>, width: int, buf: Seq<Seq<char>>) -> Seq<
    Seq<Seq<char>>,
>
    decreases words.len(),
{
    if words.len() == 0 {
        seq![buf]
    } else if !word_fits(buf, words[0], width) {
        seq![buf] + pack_rec(words.drop_first(), width, seq![words[0]])
    } else {
        pack_rec(words.drop_first(), width, buf.push(words[0]))
    }
}

/// Greedy packing of a word sequence into lines of words; the first word
/// always opens the first line.
pub open spec fn pack(words: Seq<Seq<char>>, width: int) -> Seq<Seq<Seq<char>>> {
    if words.len() == 0 {
        Seq::empty()
    } else {
        pack_rec(words.drop_first(), width, seq![words[0]])
    }
}

/// Number of inter-word gaps on a line.
pub open spec fn gap_count(parts: Seq<Seq<char>>) -> int {
    parts.len() - 1
}

/// Spaces left to distribute over a line's gaps.
pub open spec fn total_padding(parts: Seq<Seq<char>>, width: int) -> int {
    width - sum_lens(parts)
}

/// Spaces that every gap of a multi-word line receives at least.
pub open spec fn base_gap(parts: Seq<Seq<char>>, width: int) -> int {
    total_padding(parts, width) / gap_count(parts)
}

/// Number of leftmost gaps that receive one extra space.
pub open spec fn extra_gaps(parts: Seq<Seq<char>>, width: int) -> int {
    total_padding(parts, width) % gap_count(parts)
}

/// Width of the 0-indexed `i`-th gap: the base share, plus one for the first
/// `extra_gaps` gaps.
pub open spec fn gap_size(parts: Seq<Seq<char>>, width: int, i: int) -> int {
    base_gap(parts, width) + if i < extra_gaps(parts, width) {
        1int
    } else {
        0int
    }
}

/// The tail of a multi-word line from its `i`-th word on: words interleaved
/// with their gaps; the last word is followed by nothing.
pub open spec fn render_from(parts: Seq<Seq<char>>, width: int, i: int) -> Seq<char>
    decreases parts.len() - i,
{
    if i < 0 || i >= parts.len() {
        Seq::empty()
    } else if i == parts.len() - 1 {
        parts[i]
    } else {
        parts[i] + spaces(gap_size(parts, width, i)) + render_from(parts, width, i + 1)
    }
}

/// A finalized line: a single word is right-padded with spaces up to `width`;
/// several words are interleaved with their distributed gaps.
pub open spec fn render_line(parts: Seq<Seq<char>>, width: int) -> Seq<char> {
    if parts.len() == 1 {
        parts[0] + spaces(width - sum_lens(parts))
    } else {
        render_from(parts, width, 0)
    }
}

/// Lines joined by single newline separators, with no trailing newline.
pub open spec fn join_lines(lines: Seq<Seq<char>>) -> Seq<char>
    decreases lines.len(),
{
    if lines.len() == 0 {
        Seq::empty()
    } else if lines.len() == 1 {
        lines[0]
    } else {
        join_lines(lines.drop_last()) + seq!['\n'] + lines.last()
    }
}

/// The finalized lines of the whole document. An input whose first word is
/// empty (the empty input, or one that starts with a space) yields no lines.
pub open spec fn justified_lines(input: Seq<char>, width: int) -> Seq<Seq<char>> {
    let words = split_words(input);
    if words[0].len() == 0 {
        Seq::empty()
    } else {
        pack(words, width).map_values(|parts: Seq<Seq<char>>| render_line(parts, width))
    }
}

/// The whole output document.
pub open spec fn justify(input: Seq<char>, width: int) -> Seq<char> {
    join_lines(justified_lines(input, width))
}

/// Every word of `ws` fits alone on a line of `width`.
pub open spec fn words_fit(ws: Seq<Seq<char>>, width: int) -> bool {
    forall|i: int| 0 <= i < ws.len() ==> (#[trigger] ws[i]).len() <= width
}

/// `w` holds no space character.
pub open spec fn space_free(w: Seq<char>) -> bool {
    forall|j: int| 0 <= j < w.len() ==> w[j] != ' '
}

/// Every word of `ws` is non-empty.
pub open spec fn words_nonempty(ws: Seq<Seq<char>>) -> bool {
    forall|i: int| 0 <= i < ws.len() ==> (#[trigger] ws[i]).len() >= 1
}

/// The views of a sequence of string slices.
pub open spec fn word_views(ws: Seq<&str>) -> Seq<Seq<char>> {
    ws.map_values(|w: &str| w@)
}

/// Word extraction as a reader of the output would do it: split on runs of
/// spaces and drop the empty fragments. `cur` is the partial word read so far.
pub open spec fn extract_rec(s: Seq<char>, cur: Seq<char>) -> Seq<Seq<char>>
    decreases s.len(),
{
    if s.len() == 0 {
        if cur.len() == 0 {
            Seq::empty()
        } else {
            seq![cur]
        }
    } else if s[0] == ' ' {
        (if cur.len() == 0 {
            Seq::empty()
        } else {
            seq![cur]
        }) + extract_rec(s.drop_first(), Seq::empty())
    } else {
        extract_rec(s.drop_first(), cur.push(s[0]))
    }
}

/// The maximal space-free non-empty runs of `s`, in order.
pub open spec fn extract_words(s: Seq<char>) -> Seq<Seq<char>> {
    extract_rec(s, Seq::empty())
}

/// The extracted words of every line, concatenated in order.
pub open spec fn extracted_words(lines: Seq<Seq<char>>) -> Seq<Seq<char>>
    decreases lines.len(),
{
    if lines.len() == 0 {
        Seq::empty()
    } else {
        extract_words(lines[0]) + extracted_words(lines.drop_first())
    }
}

/// All words of a packed document, concatenated in line order.
pub open spec fn flatten_packed(packed: Seq<Seq<Seq<char>>>) -> Seq<Seq<char>>
    decreases packed.len(),
{
    if packed.len() == 0 {
        Seq::empty()
    } else {
        packed[0] + flatten_packed(packed.drop_first())
    }
}

/// The smallest index holding a space is exactly where a left-to-right scan
/// says it is.
pub proof fn lemma_first_space_is(s: Seq<char>, k: int)
    requires
        0 <= k <= s.len(),
        forall|t: int| 0 <= t < k ==> s[t] != ' ',
        k < s.len() ==> s[k] == ' ',
    ensures
        first_space(s) == k,
    decreases s.len(),
{
    if k == 0 {
        if s.len() != 0 {
            assert(s[0] == ' ');
        }
    } else {
        assert(s[0] != ' ');
        assert forall|t: int| 0 <= t < k - 1 implies s.drop_first()[t] != ' ' by {
            assert(s.drop_first()[t] == s[t + 1]);
        }
        if k - 1 < s.drop_first().len() {
            assert(s.drop_first()[k - 1] == s[k]);
        }
        lemma_first_space_is(s.drop_first(), k - 1);
    }
}

/// A string without spaces splits into itself alone.
pub proof fn lemma_split_whole(s: Seq<char>)
    requires
        space_free(s),
    ensures
        split_words(s) == seq![s],
{
    lemma_first_space_is(s, s.len() as int);
}

/// Splitting a string whose first space stands at `k` yields the prefix
/// before `k` and then the split of what follows `k`.
pub proof fn lemma_split_at_space(s: Seq<char>, k: int)
    requires
        0 <= k < s.len(),
        s[k] == ' ',
        forall|t: int| 0 <= t < k ==> s[t] != ' ',
    ensures
        split_words(s) == seq![s.subrange(0, k)] + split_words(
            s.subrange(k + 1, s.len() as int),
        ),
{
    lemma_first_space_is(s, k);
}

/// Appending a word adds its length to the total.
pub proof fn lemma_sum_lens_push(ws: Seq<Seq<char>>, w: Seq<char>)
    ensures
        sum_lens(ws.push(w)) == sum_lens(ws) + w.len(),
    decreases ws.len(),
{
    if ws.len() == 0 {
        assert(ws.push(w)[0] == w);
        assert(ws.push(w).drop_first() =~= Seq::<Seq<char>>::empty());
        assert(sum_lens(Seq::<Seq<char>>::empty()) == 0);
    } else {
        assert(ws.push(w)[0] == ws[0]);
        assert(ws.push(w).drop_first() =~= ws.drop_first().push(w));
        lemma_sum_lens_push(ws.drop_first(), w);
    }
}

/// A single word's total is its own length.
pub proof fn lemma_sum_lens_singleton(w: Seq<char>)
    ensures
        sum_lens(seq![w]) == w.len(),
{
    assert(seq![w].drop_first() =~= Seq::<Seq<char>>::empty());
    assert(sum_lens(Seq::<Seq<char>>::empty()) == 0);
}

/// Every word that splitting produces is free of spaces.
pub proof fn lemma_split_words_space_free(s: Seq<char>)
    ensures
        forall|i: int|
            0 <= i < split_words(s).len() ==> space_free(#[trigger] split_words(s)[i]),
    decreases s.len(),
{
    let i = first_space(s) as int;
    lemma_first_space_is_bounds(s);
    if i >= s.len() {
        assert(split_words(s) == seq![s]);
        assert(space_free(s));
    } else {
        let head = s.subrange(0, i);
        let rest = s.subrange(i + 1, s.len() as int);
        assert(space_free(head));
        lemma_split_words_space_free(rest);
        assert forall|j: int| 0 <= j < split_words(s).len() implies space_free(
            #[trigger] split_words(s)[j],
        ) by {
            if j == 0 {
                assert(split_words(s)[0] == head);
            } else {
                assert(split_words(s)[j] == split_words(rest)[j - 1]);
            }
        }
    }
}

/// What the scan for the first space guarantees about the characters of `s`.
pub proof fn lemma_first_space_is_bounds(s: Seq<char>)
    ensures
        first_space(s) <= s.len(),
        forall|t: int| 0 <= t < first_space(s) ==> s[t] != ' ',
        first_space(s) < s.len() ==> s[first_space(s) as int] == ' ',
    decreases s.len(),
{
    if s.len() != 0 && s[0] != ' ' {
        lemma_first_space_is_bounds(s.drop_first());
        assert forall|t: int| 0 <= t < first_space(s) implies s[t] != ' ' by {
            if t > 0 {
                assert(s.drop_first()[t - 1] == s[t]);
            }
        }
        if first_space(s) < s.len() {
            assert(s.drop_first()[first_space(s) - 1] == s[first_space(s) as int]);
        }
    }
}

} // verus!
