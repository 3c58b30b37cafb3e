//! Justifies whitespace-separated text to a fixed line width: words are
//! packed greedily onto lines, and the leftover spaces of each line are
//! distributed over its gaps, the leftmost gaps first.

use vstd::prelude::*;

pub mod laws;
pub mod model;

use crate::model::justify;
use crate::model::split_words;
use crate::model::words_fit;

verus! {

/// A freshly built string of exactly `n` spaces.
fn spaces_string(n: usize) -> (r: String)
    ensures
        r@ == crate::model::spaces(n as int),
{
    let mut r = String::new();
    let mut i: usize = 0;
    while i < n
        invariant
            i <= n,
            r@ == crate::model::spaces(i as int),
        decreases n - i,
    {
        r.append(" ");
        proof {
            reveal_strlit(" ");
            assert(r@ =~= crate::model::spaces(i + 1 as int));
        }
        i += 1;
    }
    r
}

/// Splits `input` on single space characters, keeping empty fragments, as
/// the model's `split_words` does.
fn split_into_words<'a>(input: &'a str) -> (words: Vec<&'a str>)
    ensures
        crate::model::word_views(words@) == split_words(input@),
{
    let n: usize = input.unicode_len();
    let mut words: Vec<&'a str> = Vec::new();
    let mut start: usize = 0;
    let mut j: usize = 0;
    proof {
        assert(crate::model::word_views(words@) =~= Seq::<Seq<char>>::empty());
        assert(input@.subrange(0, n as int) =~= input@);
        assert(Seq::<Seq<char>>::empty() + split_words(input@) =~= split_words(input@));
    }
    while j < n
        invariant
            start <= j <= n,
            n == input@.len(),
            forall|t: int| start <= t < j ==> input@[t] != ' ',
            crate::model::word_views(words@) + split_words(
                input@.subrange(start as int, n as int),
            ) == split_words(input@),
        decreases n - j,
    {
        let c = input.get_char(j);
        if c == ' ' {
            let w = input.substring_char(start, j);
            proof {
                let rest = input@.subrange(start as int, n as int);
                assert forall|t: int| 0 <= t < j - start implies rest[t] != ' ' by {
                    assert(rest[t] == input@[start + t]);
                }
                assert(rest[j - start] == input@[j as int]);
                crate::model::lemma_split_at_space(rest, j - start);
                assert(rest.subrange(0, j - start) =~= input@.subrange(start as int, j as int));
                assert(rest.subrange(j - start + 1, rest.len() as int) =~= input@.subrange(
                    j + 1 as int,
                    n as int,
                ));
                assert(crate::model::word_views(words@.push(w)) =~= crate::model::word_views(
                    words@,
                ) + seq![w@]);
                assert(crate::model::word_views(words@.push(w)) + split_words(
                    input@.subrange(j + 1 as int, n as int),
                ) =~= crate::model::word_views(words@) + (seq![rest.subrange(0, j - start)]
                    + split_words(rest.subrange(j - start + 1, rest.len() as int))));
            }
            words.push(w);
            start = j + 1;
        }
        j += 1;
    }
    let w = input.substring_char(start, n);
    proof {
        let rest = input@.subrange(start as int, n as int);
        assert forall|t: int| 0 <= t < rest.len() implies rest[t] != ' ' by {
            assert(rest[t] == input@[start + t]);
        }
        crate::model::lemma_split_whole(rest);
        assert(crate::model::word_views(words@.push(w)) =~= crate::model::word_views(words@)
            + seq![w@]);
        assert(crate::model::word_views(words@.push(w)) =~= crate::model::word_views(words@)
            + seq![rest]);
    }
    words.push(w);
    words
}

/// Finalizes an accumulated line buffer into a string of exactly
/// `output_line_len` characters. A single word is right-padded; between
/// several words the leftover spaces are split evenly, the leftmost gaps
/// receiving the remainder. `last_line_len` must be the total character
/// count of the words, which must fit on the line with one space per gap.
pub fn process_last_line_parts(
    last_line_parts: &Vec<&str>,
    last_line_len: usize,
    output_line_len: usize,
) -> (r: String)
    requires
        last_line_parts@.len() >= 1,
        last_line_len as int == crate::model::sum_lens(crate::model::word_views(
            last_line_parts@,
        )),
        last_line_len + last_line_parts@.len() - 1 <= output_line_len,
    ensures
        r@ == crate::model::render_line(
            crate::model::word_views(last_line_parts@),
            output_line_len as int,
        ),
{
    let ghost parts = crate::model::word_views(last_line_parts@);
    let ghost width = output_line_len as int;
    let k = last_line_parts.len();
    let space_chars_count = output_line_len - last_line_len;
    if k == 1 {
        let mut r = last_line_parts[0].to_owned();
        let pad = spaces_string(space_chars_count);
        r.append(pad.as_str());
        proof {
            crate::model::lemma_sum_lens_singleton(parts[0]);
            assert(parts =~= seq![parts[0]]);
            assert(r@ == parts[0] + crate::model::spaces(width - crate::model::sum_lens(parts)));
        }
        r
    } else {
        let gaps_count = k - 1;
        let space_chars_per_gap = space_chars_count / gaps_count;
        let extra_space_chars_count = space_chars_count % gaps_count;
        let base_pad = spaces_string(space_chars_per_gap);
        let mut new_line = String::new();
        let mut i: usize = 0;
        proof {
            assert(crate::model::gap_count(parts) == gaps_count as int);
            assert(crate::model::total_padding(parts, width) == space_chars_count as int);
            assert(new_line@ + crate::model::render_from(parts, width, 0) =~= crate::model::render_from(
                parts,
                width,
                0,
            ));
        }
        while i < k
            invariant
                i <= k,
                k == last_line_parts@.len(),
                k >= 2,
                parts == crate::model::word_views(last_line_parts@),
                width == output_line_len as int,
                space_chars_per_gap as int == crate::model::base_gap(parts, width),
                extra_space_chars_count as int == crate::model::extra_gaps(parts, width),
                base_pad@ == crate::model::spaces(space_chars_per_gap as int),
                crate::model::render_from(parts, width, 0) == new_line@
                    + crate::model::render_from(parts, width, i as int),
            decreases k - i,
        {
            let ghost line_before = new_line@;
            let w = last_line_parts[i];
            new_line.append(w);
            if i < k - 1 {
                new_line.append(base_pad.as_str());
                if i < extra_space_chars_count {
                    new_line.append(" ");
                    proof {
                        reveal_strlit(" ");
                        assert(base_pad@ + " "@ =~= crate::model::spaces(
                            crate::model::gap_size(parts, width, i as int),
                        ));
                    }
                } else {
                    proof {
                        assert(base_pad@ =~= crate::model::spaces(
                            crate::model::gap_size(parts, width, i as int),
                        ));
                    }
                }
                proof {
                    assert(crate::model::render_from(parts, width, i as int) == parts[i as int]
                        + crate::model::spaces(crate::model::gap_size(parts, width, i as int))
                        + crate::model::render_from(parts, width, i + 1 as int));
                    assert(crate::model::render_from(parts, width, 0) =~= new_line@
                        + crate::model::render_from(parts, width, i + 1 as int));
                }
            } else {
                proof {
                    assert(crate::model::render_from(parts, width, i as int) == parts[i as int]);
                    assert(crate::model::render_from(parts, width, i + 1 as int)
                        =~= Seq::<char>::empty());
                    assert(crate::model::render_from(parts, width, 0) =~= new_line@
                        + crate::model::render_from(parts, width, i + 1 as int));
                }
            }
            i += 1;
        }
        proof {
            assert(crate::model::render_from(parts, width, k as int) =~= Seq::<char>::empty());
            assert(new_line@ =~= crate::model::render_from(parts, width, 0));
        }
        new_line
    }
}

/// Reformats `input` into lines of exactly `output_line_len` characters:
/// words are packed greedily in order, each finalized line's leftover spaces
/// are spread over its gaps (leftmost gaps first), and the lines are joined
/// by single newlines. The last line is justified like every other. An input
/// whose first split fragment is empty — the empty input, or one starting
/// with a space — yields the empty string. Every word must fit alone on a
/// line: no check of word length is made here.
pub fn transform(input: &str, output_line_len: usize) -> (r: String)
    requires
        output_line_len >= 1,
        words_fit(split_words(input@), output_line_len as int),
    ensures
        r@ == justify(input@, output_line_len as int),
{
    let ghost width = output_line_len as int;
    let ghost wseq = split_words(input@);
    let words = split_into_words(input);
    let n = words.len();
    assert(n == wseq.len() && n >= 1);
    if words[0].is_empty() {
        proof {
            reveal_strlit("");
            assert(wseq[0].len() == 0);
            assert(crate::model::justified_lines(input@, width) =~= Seq::<Seq<char>>::empty());
        }
        return String::new();
    }
    let mut lines: Vec<String> = Vec::new();
    let ghost mut packed_done: Seq<Seq<Seq<char>>> = Seq::empty();
    let mut last_line_parts: Vec<&str> = Vec::new();
    last_line_parts.push(words[0]);
    let mut last_line_len: usize = words[0].unicode_len();
    let mut idx: usize = 1;
    proof {
        assert(crate::model::word_views(last_line_parts@) =~= seq![wseq[0]]);
        crate::model::lemma_sum_lens_singleton(wseq[0]);
        assert(wseq.skip(1) =~= wseq.drop_first());
        assert(crate::model::pack(wseq, width) == packed_done + crate::model::pack_rec(
            wseq.skip(1),
            width,
            seq![wseq[0]],
        ));
    }
    while idx < n
        invariant
            1 <= idx <= n,
            n == wseq.len(),
            n == words@.len(),
            crate::model::word_views(words@) == wseq,
            width == output_line_len as int,
            output_line_len >= 1,
            words_fit(wseq, width),
            last_line_parts@.len() >= 1,
            last_line_len as int == crate::model::sum_lens(crate::model::word_views(
                last_line_parts@,
            )),
            last_line_len + last_line_parts@.len() - 1 <= output_line_len,
            crate::model::pack(wseq, width) == packed_done + crate::model::pack_rec(
                wseq.skip(idx as int),
                width,
                crate::model::word_views(last_line_parts@),
            ),
            lines@.len() == packed_done.len(),
            forall|t: int|
                0 <= t < packed_done.len() ==> (#[trigger] lines@[t])@ == crate::model::render_line(
                    packed_done[t],
                    width,
                ),
        decreases n - idx,
    {
        let ghost bufv = crate::model::word_views(last_line_parts@);
        let ghost remaining = wseq.skip(idx as int);
        proof {
            assert(remaining.len() > 0);
            assert(remaining[0] == wseq[idx as int]);
            assert(remaining.drop_first() =~= wseq.skip(idx + 1 as int));
        }
        let new_word = words[idx];
        let new_word_chars_count = new_word.unicode_len();
        let min_spaces_count = last_line_parts.len();
        let room = output_line_len - last_line_len;
        let fits = min_spaces_count <= room && new_word_chars_count <= room - min_spaces_count;
        proof {
            assert(fits == crate::model::word_fits(bufv, wseq[idx as int], width));
        }
        if !fits {
            let new_line = process_last_line_parts(
                &last_line_parts,
                last_line_len,
                output_line_len,
            );
            lines.push(new_line);
            last_line_parts.clear();
            proof {
                packed_done = packed_done.push(bufv);
                assert(crate::model::pack_rec(remaining, width, bufv) == seq![bufv]
                    + crate::model::pack_rec(wseq.skip(idx + 1 as int), width, seq![
                    wseq[idx as int],
                ]));
                assert(packed_done + crate::model::pack_rec(
                    wseq.skip(idx + 1 as int),
                    width,
                    seq![wseq[idx as int]],
                ) =~= packed_done.drop_last() + crate::model::pack_rec(remaining, width, bufv));
            }
            last_line_parts.push(new_word);
            last_line_len = new_word_chars_count;
            proof {
                assert(crate::model::word_views(last_line_parts@) =~= seq![wseq[idx as int]]);
                crate::model::lemma_sum_lens_singleton(wseq[idx as int]);
            }
        } else {
            last_line_parts.push(new_word);
            last_line_len = last_line_len + new_word_chars_count;
            proof {
                assert(crate::model::word_views(last_line_parts@) =~= bufv.push(
                    wseq[idx as int],
                ));
                crate::model::lemma_sum_lens_push(bufv, wseq[idx as int]);
                assert(crate::model::pack_rec(remaining, width, bufv) == crate::model::pack_rec(
                    wseq.skip(idx + 1 as int),
                    width,
                    bufv.push(wseq[idx as int]),
                ));
            }
        }
        idx += 1;
    }
    let ghost bufv = crate::model::word_views(last_line_parts@);
    let new_line = process_last_line_parts(&last_line_parts, last_line_len, output_line_len);
    lines.push(new_line);
    proof {
        packed_done = packed_done.push(bufv);
        assert(wseq.skip(n as int) =~= Seq::<Seq<char>>::empty());
        assert(crate::model::pack_rec(wseq.skip(n as int), width, bufv) == seq![bufv]);
        assert(packed_done =~= crate::model::pack(wseq, width));
    }
    let ghost jl = crate::model::justified_lines(input@, width);
    proof {
        assert(jl =~= packed_done.map_values(
            |parts: Seq<Seq<char>>| crate::model::render_line(parts, width),
        ));
        assert(jl.len() == lines@.len());
        assert(forall|t: int|
            0 <= t < jl.len() ==> jl[t] == (#[trigger] lines@[t])@);
    }
    let mut out = String::new();
    let m = lines.len();
    let mut k: usize = 0;
    proof {
        assert(jl.take(0) =~= Seq::<Seq<char>>::empty());
    }
    while k < m
        invariant
            k <= m,
            m == lines@.len(),
            m == jl.len(),
            forall|t: int| 0 <= t < jl.len() ==> jl[t] == (#[trigger] lines@[t])@,
            out@ == crate::model::join_lines(jl.take(k as int)),
        decreases m - k,
    {
        if k > 0 {
            out.append("\n");
            proof {
                reveal_strlit("\n");
            }
        }
        out.append(lines[k].as_str());
        proof {
            assert(jl.take(k + 1 as int).drop_last() =~= jl.take(k as int));
            assert(jl.take(k + 1 as int).last() == jl[k as int]);
            if k == 0 {
                assert(out@ =~= crate::model::join_lines(jl.take(1)));
            } else {
                reveal_strlit("\n");
                assert("\n"@ =~= seq!['\n']);
                assert(out@ =~= crate::model::join_lines(jl.take(k as int)) + seq!['\n']
                    + jl[k as int]);
            }
        }
        k += 1;
    }
    proof {
        assert(jl.take(m as int) =~= jl);
    }
    out
}

} // verus!
