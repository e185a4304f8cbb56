//! The plain-text PPM encoding of a canvas: a `P3` header naming the
//! dimensions and the sample depth 255, then every pixel of every row as
//! three decimal samples, the samples laid out on lines of at most 70
//! characters.

use crate::canvas::Canvas;
use crate::canvas::Rgb;
use crate::text::decimal;
use crate::text::join_bytes;
use crate::text::join_on;
use crate::text::push_decimal;
use vstd::prelude::*;
use vstd::slice::slice_subrange;
use vstd::slice::slice_to_vec;

verus! {

/// The three samples of one pixel, as decimal words.
pub open spec fn pixel_words(p: Rgb) -> Seq<Seq<u8>> {
    seq![decimal(p.red as nat), decimal(p.green as nat), decimal(p.blue as nat)]
}

/// The samples of a whole row, in pixel order.
pub open spec fn row_words(row: Seq<Rgb>) -> Seq<Seq<u8>>
    decreases row.len(),
{
    if row.len() == 0 {
        Seq::empty()
    } else {
        row_words(row.drop_last()) + pixel_words(row.last())
    }
}

/// One word added to greedily wrapped lines: it joins the last line when it
/// fits after a separating space, else it opens a new line.
pub open spec fn wrap_step(lines: Seq<Seq<u8>>, word: Seq<u8>, max_len: nat) -> Seq<Seq<u8>> {
    if lines.len() == 0 {
        seq![word]
    } else if lines.last().len() + 1 + word.len() <= max_len {
        lines.update(lines.len() - 1, lines.last() + seq![32u8] + word)
    } else {
        lines.push(word)
    }
}

/// Words greedily packed onto lines of at most `max_len` characters (a
/// single word longer than `max_len` still gets a line of its own).
pub open spec fn wrap_spec(words: Seq<Seq<u8>>, max_len: nat) -> Seq<Seq<u8>>
    decreases words.len(),
{
    if words.len() == 0 {
        Seq::empty()
    } else {
        wrap_step(wrap_spec(words.drop_last(), max_len), words.last(), max_len)
    }
}

/// Row `y` of the canvas.
pub open spec fn canvas_row(c: Canvas<Rgb>, y: int) -> Seq<Rgb> {
    c.pixels@.subrange(y * c.width, (y + 1) * c.width)
}

/// The sample lines of the first `y` rows, each row wrapped at 70
/// characters.
pub open spec fn ppm_lines(c: Canvas<Rgb>, y: int) -> Seq<Seq<u8>>
    decreases y,
{
    if y <= 0 {
        Seq::empty()
    } else {
        ppm_lines(c, y - 1) + wrap_spec(row_words(canvas_row(c, y - 1)), 70)
    }
}

/// `P3`, the pixel dimensions, and the sample depth 255.
pub open spec fn header_bytes(width: nat, height: nat) -> Seq<u8> {
    seq![80u8, 51u8, 10u8] + decimal(width) + seq![32u8] + decimal(height) + seq![
        10u8,
        50u8,
        53u8,
        53u8,
    ]
}

/// The whole pixel file: header, sample lines separated by newlines, and a
/// final newline.
pub open spec fn ppm_bytes(c: Canvas<Rgb>) -> Seq<u8> {
    header_bytes(c.width as nat, c.height as nat) + seq![10u8] + join_bytes(
        ppm_lines(c, c.height as int),
        10,
    ) + seq![10u8]
}

/// Wrapping gives a line exactly when there is a word.
proof fn lemma_wrap_spec_empty(words: Seq<Seq<u8>>, max_len: nat)
    ensures
        wrap_spec(words, max_len).len() == 0 <==> words.len() == 0,
{
    if words.len() > 0 {
        let lines = wrap_spec(words.drop_last(), max_len);
        if lines.len() > 0 && lines.last().len() + 1 + words.last().len() <= max_len {
            assert(lines.update(lines.len() - 1, lines.last() + seq![32u8] + words.last()).len()
                == lines.len());
        }
    }
}

/// Growing the last line reads, once joined, as the old lines followed by
/// the separator and the new word.
proof fn lemma_join_extend_last(lines: Seq<Seq<u8>>, w: Seq<u8>, b: u8)
    requires
        lines.len() >= 1,
    ensures
        join_bytes(lines.update(lines.len() - 1, lines.last() + seq![b] + w), b) == join_bytes(
            lines,
            b,
        ) + seq![b] + w,
{
    let updated = lines.update(lines.len() - 1, lines.last() + seq![b] + w);
    assert(updated.len() == lines.len());
    if lines.len() == 1 {
        assert(join_bytes(updated, b) == updated[0]);
        assert(updated[0] =~= join_bytes(lines, b) + seq![b] + w);
    } else {
        assert(updated.drop_last() =~= lines.drop_last());
        assert(updated.last() == lines.last() + seq![b] + w);
        assert(join_bytes(updated, b) == join_bytes(lines.drop_last(), b) + seq![b] + (lines.last()
            + seq![b] + w));
        assert(join_bytes(lines.drop_last(), b) + seq![b] + (lines.last() + seq![b] + w) =~= (
        join_bytes(lines.drop_last(), b) + seq![b] + lines.last()) + seq![b] + w);
    }
}

/// Wrapping loses no sample and invents none: the wrapped lines, joined by
/// single spaces, read exactly as the words joined by single spaces.
pub proof fn lemma_wrap_preserves_words(words: Seq<Seq<u8>>, max_len: nat)
    ensures
        join_bytes(wrap_spec(words, max_len), 32) == join_bytes(words, 32),
    decreases words.len(),
{
    if words.len() > 0 {
        let prefix = words.drop_last();
        let word = words.last();
        let lines = wrap_spec(prefix, max_len);
        lemma_wrap_preserves_words(prefix, max_len);
        lemma_wrap_spec_empty(prefix, max_len);
        if lines.len() == 0 {
            assert(prefix.len() == 0);
            assert(words.len() == 1);
            assert(join_bytes(wrap_spec(words, max_len), 32) == word);
        } else if lines.last().len() + 1 + word.len() <= max_len {
            lemma_join_extend_last(lines, word, 32);
        } else {
            assert(wrap_spec(words, max_len) == lines.push(word));
            assert(lines.push(word).drop_last() =~= lines);
            assert(lines.push(word).last() == word);
        }
    }
}

/// Wrapped lines keep to the limit whenever every single word does.
pub proof fn lemma_wrap_line_length(words: Seq<Seq<u8>>, max_len: nat)
    requires
        forall|k: int| 0 <= k < words.len() ==> (#[trigger] words[k]).len() <= max_len,
    ensures
        forall|k: int|
            0 <= k < wrap_spec(words, max_len).len() ==> (#[trigger] wrap_spec(words, max_len)[
                k
            ]).len() <= max_len,
    decreases words.len(),
{
    if words.len() > 0 {
        let prefix = words.drop_last();
        let word = words.last();
        let lines = wrap_spec(prefix, max_len);
        assert forall|k: int| 0 <= k < prefix.len() implies (#[trigger] prefix[k]).len()
            <= max_len by {
            assert(prefix[k] == words[k]);
        }
        lemma_wrap_line_length(prefix, max_len);
        assert(words[words.len() - 1] == word);
        if lines.len() == 0 {
        } else if lines.last().len() + 1 + word.len() <= max_len {
            let updated = lines.update(lines.len() - 1, lines.last() + seq![32u8] + word);
            assert(forall|k: int|
                0 <= k < updated.len() && k != lines.len() - 1 ==> updated[k] == #[trigger] lines[
                    k
                ]);
        } else {
            assert(forall|k: int|
                0 <= k < lines.len() ==> lines.push(word)[k] == #[trigger] lines[k]);
        }
    }
}

/// Every sample of a row is a one- to three-character word.
proof fn lemma_row_words_short(row: Seq<Rgb>)
    ensures
        forall|k: int|
            0 <= k < row_words(row).len() ==> (#[trigger] row_words(row)[k]).len() <= 3,
    decreases row.len(),
{
    if row.len() > 0 {
        let prefix = row_words(row.drop_last());
        lemma_row_words_short(row.drop_last());
        crate::text::lemma_decimal_len(row.last().red as nat);
        crate::text::lemma_decimal_len(row.last().green as nat);
        crate::text::lemma_decimal_len(row.last().blue as nat);
        assert forall|k: int| 0 <= k < row_words(row).len() implies (#[trigger] row_words(row)[
            k
        ]).len() <= 3 by {
            if k < prefix.len() {
                assert(row_words(row)[k] == prefix[k]);
            } else {
                assert(row_words(row)[k] == pixel_words(row.last())[k - prefix.len()]);
            }
        }
    }
}

/// No sample line of the encoded file runs past 70 characters.
pub proof fn lemma_ppm_lines_short(c: Canvas<Rgb>, y: int)
    ensures
        forall|k: int|
            0 <= k < ppm_lines(c, y).len() ==> (#[trigger] ppm_lines(c, y)[k]).len() <= 70,
    decreases y,
{
    if y > 0 {
        lemma_ppm_lines_short(c, y - 1);
        let prefix = ppm_lines(c, y - 1);
        let words = row_words(canvas_row(c, y - 1));
        lemma_row_words_short(canvas_row(c, y - 1));
        lemma_wrap_line_length(words, 70);
        assert forall|k: int| 0 <= k < ppm_lines(c, y).len() implies (#[trigger] ppm_lines(c, y)[
            k
        ]).len() <= 70 by {
            if k < prefix.len() {
                assert(ppm_lines(c, y)[k] == prefix[k]);
            } else {
                assert(ppm_lines(c, y)[k] == wrap_spec(words, 70)[k - prefix.len()]);
            }
        }
    }
}

/// Packs `words` onto lines of at most `max_len` characters, greedily: each
/// word joins the current line when it fits after a single space, else it
/// starts a new line.
pub fn wrap(words: &Vec<Vec<u8>>, max_len: usize) -> (r: Vec<Vec<u8>>)
    ensures
        r.deep_view() == wrap_spec(words.deep_view(), max_len as nat),
{
    let ghost wv = words.deep_view();
    let mut lines: Vec<Vec<u8>> = Vec::new();
    let mut i: usize = 0;
    proof {
        assert(wv.take(0) =~= Seq::<Seq<u8>>::empty());
    }
    while i < words.len()
        invariant
            i <= words@.len(),
            wv == words.deep_view(),
            lines.deep_view() == wrap_spec(wv.take(i as int), max_len as nat),
        decreases words@.len() - i,
    {
        proof {
            assert(wv.take(i + 1).drop_last() =~= wv.take(i as int));
            assert(wv.take(i + 1).last() =~= words@[i as int]@);
        }
        let word = slice_to_vec(words[i].as_slice());
        let ghost prev = lines.deep_view();
        match lines.pop() {
            None => {
                lines.push(word);
                proof {
                    assert(lines.deep_view() =~~= wrap_step(prev, word@, max_len as nat));
                }
            },
            Some(line) => {
                let mut line = line;
                proof {
                    assert(prev.last() =~= line@);
                }
                if line.len() < max_len && word.len() <= max_len - line.len() - 1 {
                    line.push(32);
                    line.extend_from_slice(word.as_slice());
                    proof {
                        assert(line@ =~= prev.last() + seq![32u8] + word@);
                    }
                    lines.push(line);
                    proof {
                        assert(lines.deep_view() =~~= wrap_step(prev, word@, max_len as nat));
                    }
                } else {
                    lines.push(line);
                    lines.push(word);
                    proof {
                        assert(lines.deep_view() =~~= wrap_step(prev, word@, max_len as nat));
                    }
                }
            },
        }
        i = i + 1;
    }
    proof {
        assert(wv.take(words@.len() as int) =~= wv);
    }
    lines
}

/// The decimal samples of one row of pixels, in order.
fn row_to_words(row: &[Rgb]) -> (r: Vec<Vec<u8>>)
    ensures
        r.deep_view() == row_words(row@),
{
    let mut r: Vec<Vec<u8>> = Vec::new();
    let mut i: usize = 0;
    proof {
        assert(row@.take(0) =~= Seq::<Rgb>::empty());
    }
    while i < row.len()
        invariant
            i <= row@.len(),
            r.deep_view() == row_words(row@.take(i as int)),
        decreases row@.len() - i,
    {
        proof {
            assert(row@.take(i + 1).drop_last() =~= row@.take(i as int));
            assert(row@.take(i + 1).last() == row@[i as int]);
        }
        let p = row[i];
        let ghost prev = r.deep_view();
        let mut red: Vec<u8> = Vec::new();
        push_decimal(p.red as usize, &mut red);
        let mut green: Vec<u8> = Vec::new();
        push_decimal(p.green as usize, &mut green);
        let mut blue: Vec<u8> = Vec::new();
        push_decimal(p.blue as usize, &mut blue);
        r.push(red);
        r.push(green);
        r.push(blue);
        proof {
            assert(r.deep_view() =~~= prev + pixel_words(row@[i as int]));
        }
        i = i + 1;
    }
    proof {
        assert(row@.take(row@.len() as int) =~= row@);
    }
    r
}

impl Canvas<Rgb> {
    /// The canvas encoded as a plain-text PPM file.
    pub fn to_ppm(&self) -> (r: Vec<u8>)
        requires
            self.wf(),
        ensures
            r@ == ppm_bytes(*self),
    {
        let mut lines: Vec<Vec<u8>> = Vec::new();
        let mut y: usize = 0;
        while y < self.height
            invariant
                y <= self.height,
                self.wf(),
                lines.deep_view() == ppm_lines(*self, y as int),
            decreases self.height - y,
        {
            proof {
                vstd::std_specs::vec::axiom_spec_len(&self.pixels);
                assert((y + 1) * self.width == y * self.width + self.width && y * self.width
                    + self.width <= self.width * self.height) by (nonlinear_arith)
                    requires
                        y < self.height,
                ;
            }
            let start = y * self.width;
            let end = start + self.width;
            let row = slice_subrange(self.pixels.as_slice(), start, end);
            let words = row_to_words(row);
            let mut wrapped = wrap(&words, 70);
            let ghost prev = lines.deep_view();
            let ghost wdv = wrapped.deep_view();
            lines.append(&mut wrapped);
            proof {
                assert(lines.deep_view() =~~= prev + wdv);
                assert(row@ =~= canvas_row(*self, y as int));
            }
            y = y + 1;
        }
        let mut out: Vec<u8> = Vec::new();
        out.push(80);
        out.push(51);
        out.push(10);
        push_decimal(self.width, &mut out);
        out.push(32);
        push_decimal(self.height, &mut out);
        out.push(10);
        out.push(50);
        out.push(53);
        out.push(53);
        out.push(10);
        let body = join_on(&lines, 10);
        out.extend_from_slice(body.as_slice());
        out.push(10);
        proof {
            assert(out@ =~= ppm_bytes(*self));
        }
        out
    }
}

} // verus!
