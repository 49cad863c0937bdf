use crate::colors::{quantize, quantum, Color};
use vstd::arithmetic::div_mod::lemma_multiply_divide_lt;
use vstd::arithmetic::power::pow;
use vstd::prelude::*;
use vstd::string::StringExecFns;

verus! {

/// Relies on `String::push` of std: it appends the given character to the
/// end of the string.
pub assume_specification[ String::push ](s: &mut String, c: char)
    ensures
        final(s)@ == old(s)@.push(c),
;

/// The character for one decimal digit.
pub open spec fn digit(d: int) -> char {
    if d == 0 {
        '0'
    } else if d == 1 {
        '1'
    } else if d == 2 {
        '2'
    } else if d == 3 {
        '3'
    } else if d == 4 {
        '4'
    } else if d == 5 {
        '5'
    } else if d == 6 {
        '6'
    } else if d == 7 {
        '7'
    } else if d == 8 {
        '8'
    } else {
        '9'
    }
}

/// The decimal rendering of a number: its digits, most significant first,
/// with no sign and no leading zero (except for the number 0 itself).
pub open spec fn dec_rep(n: nat) -> Seq<char>
    decreases n,
{
    if n < 10 {
        seq![digit(n as int)]
    } else {
        dec_rep(n / 10).push(digit((n % 10) as int))
    }
}

/// The character for the digit `d`.
fn digit_char(d: u64) -> (c: char)
    requires
        d < 10,
    ensures
        c == digit(d as int),
{
    match d {
        0 => '0',
        1 => '1',
        2 => '2',
        3 => '3',
        4 => '4',
        5 => '5',
        6 => '6',
        7 => '7',
        8 => '8',
        _ => '9',
    }
}

/// Append the decimal rendering of `n` to `out`.
fn push_decimal(out: &mut String, n: u64)
    ensures
        final(out)@ == old(out)@ + dec_rep(n as nat),
    decreases n,
{
    if n >= 10 {
        push_decimal(out, n / 10);
    }
    out.push(digit_char(n % 10));
    proof {
        assert(final(out)@ =~= old(out)@ + dec_rep(n as nat));
    }
}

/// The characters of a string slice, as a vector.
fn to_chars(s: &str) -> (v: Vec<char>)
    ensures
        v@ == s@,
{
    let mut v: Vec<char> = Vec::new();
    for c in it: s.chars()
        invariant
            it.seq() == s@,
            v@ == it.seq().take(it.index() as int),
    {
        v.push(c);
    }
    proof {
        assert(v@ =~= s@);
    }
    v
}

/// Append every character of `w` to `out`.
fn push_chars(out: &mut String, w: &Vec<char>)
    ensures
        final(out)@ == old(out)@ + w@,
{
    let mut i: usize = 0;
    while i < w.len()
        invariant
            i <= w.len(),
            out@ == old(out)@ + w@.take(i as int),
        decreases w.len() - i,
    {
        out.push(w[i]);
        i = i + 1;
        proof {
            assert(old(out)@ + w@.take(i - 1) + seq![w@[i - 1]] =~= old(out)@ + w@.take(i as int));
        }
    }
    proof {
        assert(old(out)@ + w@.take(w@.len() as int) =~= old(out)@ + w@);
    }
}

/// No character of `w` is a space.
pub open spec fn no_space(w: Seq<char>) -> bool {
    forall|k: int| 0 <= k < w.len() ==> w[k] != ' '
}

/// The words of a line: the segments between space characters.  Splitting
/// keeps empty segments, so a leading, trailing or doubled space yields an
/// empty word, and the empty line has exactly one empty word.
pub open spec fn words_of(s: Seq<char>) -> Seq<Seq<char>>
    decreases s.len(),
{
    if s.len() == 0 {
        seq![Seq::<char>::empty()]
    } else if s[0] == ' ' {
        seq![Seq::<char>::empty()] + words_of(s.drop_first())
    } else {
        let rest = words_of(s.drop_first());
        seq![seq![s[0]] + rest[0]] + rest.drop_first()
    }
}

/// Splitting always yields at least one word.
pub proof fn lemma_words_of_nonempty(s: Seq<char>)
    ensures
        words_of(s).len() >= 1,
    decreases s.len(),
{
    if s.len() != 0 {
        lemma_words_of_nonempty(s.drop_first());
    }
}

/// A line without spaces is a single word.
proof fn lemma_words_of_no_space(w: Seq<char>)
    requires
        no_space(w),
    ensures
        words_of(w) == seq![w],
    decreases w.len(),
{
    if w.len() == 0 {
        assert(words_of(w) =~~= seq![w]);
    } else {
        lemma_words_of_no_space(w.drop_first());
        assert(seq![w[0]] + w.drop_first() =~= w);
        assert(words_of(w) =~~= seq![w]);
    }
}

/// The first space splits off the first word.
proof fn lemma_words_of_split(w: Seq<char>, t: Seq<char>)
    requires
        no_space(w),
    ensures
        words_of(w + seq![' '] + t) == seq![w] + words_of(t),
    decreases w.len(),
{
    let s = w + seq![' '] + t;
    if w.len() == 0 {
        assert(s =~= seq![' '] + t);
        assert(s.drop_first() =~= t);
        assert(words_of(s) =~~= seq![w] + words_of(t));
    } else {
        lemma_words_of_split(w.drop_first(), t);
        assert(s[0] == w[0]);
        assert(s.drop_first() =~= w.drop_first() + seq![' '] + t);
        let rest = words_of(s.drop_first());
        lemma_words_of_nonempty(t);
        assert(rest[0] == w.drop_first());
        assert(seq![s[0]] + rest[0] =~= w);
        assert(rest.drop_first() =~= words_of(t));
        assert(words_of(s) =~~= seq![w] + words_of(t));
    }
}

/// The views of a vector of character vectors.
pub open spec fn word_views(ws: Seq<Vec<char>>) -> Seq<Seq<char>> {
    ws.map_values(|w: Vec<char>| w@)
}

/// Greedy wrapping of `words` from word `i` onward, with `cur` characters
/// already on the current physical line.  Each word is appended as a whole;
/// after it, a newline replaces the separating space whenever the line,
/// extended by the following word and its separating space, would pass 70
/// characters.  A final word that itself closes the line past 70 is followed
/// by a trailing newline.
pub open spec fn wrap_from(words: Seq<Seq<char>>, i: int, cur: int) -> Seq<char>
    decreases words.len() - i,
{
    if i < 0 || i >= words.len() {
        Seq::empty()
    } else {
        let here = cur + words[i].len();
        let next = if i + 1 < words.len() {
            here + words[i + 1].len() + 1
        } else {
            here
        };
        words[i] + (if next > 70 {
            seq!['\n'] + wrap_from(words, i + 1, 0)
        } else if i + 1 < words.len() {
            seq![' '] + wrap_from(words, i + 1, here + 1)
        } else {
            Seq::empty()
        })
    }
}

/// A whole word list wrapped, starting on an empty line.
pub open spec fn wrap(words: Seq<Seq<char>>) -> Seq<char> {
    wrap_from(words, 0, 0)
}

/// No character of `w` is a newline.
pub open spec fn no_newline(w: Seq<char>) -> bool {
    forall|k: int| 0 <= k < w.len() ==> w[k] != '\n'
}

/// Budgeted line-length check: the text fits when at most `first` characters
/// remain before the next newline and every later line holds at most `rest`
/// characters.  `lines_within(s, k, k)` says that no newline-separated line
/// of `s` is longer than `k`.
pub open spec fn lines_within(s: Seq<char>, first: int, rest: int) -> bool
    decreases s.len(),
{
    if s.len() == 0 {
        true
    } else if s[0] == '\n' {
        lines_within(s.drop_first(), rest, rest)
    } else {
        first >= 1 && lines_within(s.drop_first(), first - 1, rest)
    }
}

/// A newline-free prefix spends its length from the first line's budget.
proof fn lemma_lines_within_prepend(w: Seq<char>, t: Seq<char>, first: int, rest: int)
    requires
        no_newline(w),
        w.len() <= first,
        lines_within(t, first - w.len(), rest),
    ensures
        lines_within(w + t, first, rest),
    decreases w.len(),
{
    if w.len() == 0 {
        assert(w + t =~= t);
    } else {
        lemma_lines_within_prepend(w.drop_first(), t, first - 1, rest);
        assert((w + t).drop_first() =~= w.drop_first() + t);
    }
}

/// Greedy wrapping keeps every line within 70 characters, provided the words
/// themselves fit: whenever a word lands on a line that already holds `cur`
/// characters, the previous step made sure it fits there.
proof fn lemma_wrap_from_lines(words: Seq<Seq<char>>, i: int, cur: int)
    requires
        forall|k: int|
            0 <= k < words.len() ==> (#[trigger] words[k]).len() <= 70 && no_newline(words[k]),
        0 <= cur,
        0 <= i < words.len() ==> cur + words[i].len() <= 70,
    ensures
        lines_within(wrap_from(words, i, cur), 70 - cur, 70),
    decreases words.len() - i,
{
    if 0 <= i && i < words.len() {
        let w = words[i];
        let here = cur + w.len();
        let next = if i + 1 < words.len() {
            here + words[i + 1].len() + 1
        } else {
            here
        };
        if next > 70 {
            lemma_wrap_from_lines(words, i + 1, 0);
            let tail = seq!['\n'] + wrap_from(words, i + 1, 0);
            assert(tail.drop_first() =~= wrap_from(words, i + 1, 0));
            assert(lines_within(tail, 70 - here, 70));
            lemma_lines_within_prepend(w, tail, 70 - cur, 70);
        } else if i + 1 < words.len() {
            lemma_wrap_from_lines(words, i + 1, here + 1);
            let tail = seq![' '] + wrap_from(words, i + 1, here + 1);
            assert(tail.drop_first() =~= wrap_from(words, i + 1, here + 1));
            assert(lines_within(tail, 70 - here, 70));
            lemma_lines_within_prepend(w, tail, 70 - cur, 70);
        } else {
            assert(lines_within(Seq::<char>::empty(), 70 - here, 70));
            lemma_lines_within_prepend(w, Seq::empty(), 70 - cur, 70);
            assert(w + Seq::<char>::empty() =~= wrap_from(words, i, cur));
        }
    }
}

/// Law: wrapped text never runs a physical line past 70 characters, as long
/// as every word fits in 70 characters and no word holds a newline of its
/// own.  (A single over-long word must stand on its own over-long line: a
/// break never lands inside a word.)
pub proof fn lemma_wrap_lines_bounded(words: Seq<Seq<char>>)
    requires
        forall|k: int|
            0 <= k < words.len() ==> (#[trigger] words[k]).len() <= 70 && no_newline(words[k]),
    ensures
        lines_within(wrap(words), 70, 70),
{
    lemma_wrap_from_lines(words, 0, 0);
}

/// `s` with every newline read as a plain space separator.
pub open spec fn unrolled(s: Seq<char>) -> Seq<char> {
    s.map_values(|c: char| if c == '\n' { ' ' } else { c })
}

/// The words joined by single spaces, from word `i` on.
pub open spec fn joined_from(words: Seq<Seq<char>>, i: int) -> Seq<char>
    decreases words.len() - i,
{
    if i < 0 || i >= words.len() {
        Seq::empty()
    } else if i == words.len() - 1 {
        words[i]
    } else {
        words[i] + seq![' '] + joined_from(words, i + 1)
    }
}

/// Wrapping only re-reads separators: read every newline of the wrapped text
/// as a space again and the words stand joined exactly as before, except for
/// a possible trailing separator where a final over-long line was closed.
proof fn lemma_wrap_from_words(words: Seq<Seq<char>>, i: int, cur: int)
    requires
        forall|k: int| 0 <= k < words.len() ==> no_newline(#[trigger] words[k]),
    ensures
        unrolled(wrap_from(words, i, cur)) == joined_from(words, i) || unrolled(
            wrap_from(words, i, cur),
        ) == joined_from(words, i) + seq![' '],
    decreases words.len() - i,
{
    if 0 <= i && i < words.len() {
        let w = words[i];
        let here = cur + w.len();
        let next = if i + 1 < words.len() {
            here + words[i + 1].len() + 1
        } else {
            here
        };
        lemma_wrap_from_words(words, i + 1, if next > 70 {
            0
        } else {
            here + 1
        });
        if next > 70 {
            let tail = wrap_from(words, i + 1, 0);
            assert(unrolled(w + (seq!['\n'] + tail)) =~= unrolled(w) + seq![' '] + unrolled(tail));
            assert(unrolled(w) =~= w) by {
                assert(unrolled(w).len() == w.len());
            }
            if i + 1 < words.len() {
                assert(joined_from(words, i) == w + seq![' '] + joined_from(words, i + 1));
                if unrolled(tail) == joined_from(words, i + 1) {
                    assert(unrolled(wrap_from(words, i, cur)) =~= joined_from(words, i));
                } else {
                    assert(unrolled(wrap_from(words, i, cur)) =~= joined_from(words, i) + seq![
                        ' ',
                    ]);
                }
            } else {
                assert(tail =~= Seq::<char>::empty());
                assert(unrolled(tail) =~= Seq::<char>::empty());
                assert(unrolled(wrap_from(words, i, cur)) =~= joined_from(words, i) + seq![' ']);
            }
        } else if i + 1 < words.len() {
            let tail = wrap_from(words, i + 1, here + 1);
            assert(unrolled(w + (seq![' '] + tail)) =~= unrolled(w) + seq![' '] + unrolled(tail));
            assert(unrolled(w) =~= w) by {
                assert(unrolled(w).len() == w.len());
            }
            assert(joined_from(words, i) == w + seq![' '] + joined_from(words, i + 1));
            if unrolled(tail) == joined_from(words, i + 1) {
                assert(unrolled(wrap_from(words, i, cur)) =~= joined_from(words, i));
            } else {
                assert(unrolled(wrap_from(words, i, cur)) =~= joined_from(words, i) + seq![' ']);
            }
        } else {
            assert(wrap_from(words, i, cur) =~= w);
            assert(unrolled(w) =~= w) by {
                assert(unrolled(w).len() == w.len());
            }
        }
    } else {
        assert(unrolled(wrap_from(words, i, cur)) =~= Seq::<char>::empty());
    }
}

/// Law: a break never lands inside a word, and wrapping drops no word.  Read
/// every newline of the wrapped text as a space again and the words
/// stand joined by single separators exactly as split, except for a possible
/// trailing separator where a final over-long line was closed.
pub proof fn lemma_wrap_preserves_words(words: Seq<Seq<char>>)
    requires
        forall|k: int| 0 <= k < words.len() ==> no_newline(#[trigger] words[k]),
    ensures
        unrolled(wrap(words)) == joined_from(words, 0) || unrolled(wrap(words)) == joined_from(
            words,
            0,
        ) + seq![' '],
{
    lemma_wrap_from_words(words, 0, 0);
}

/// Re-wrap a line so that no physical line runs past 70 characters where the
/// words allow it: split the line at spaces, then greedily pack the words,
/// breaking to a new line instead of a space wherever the next word would not
/// fit.  A break never lands inside a word.
pub fn split_long_lines(s: String) -> (r: String)
    ensures
        r@ == wrap(words_of(s@)),
{
    let cs = to_chars(s.as_str());
    let mut words: Vec<Vec<char>> = Vec::new();
    let mut cur: Vec<char> = Vec::new();
    let mut i: usize = 0;
    proof {
        assert(cur@ + cs@.skip(0) =~= s@);
        assert(word_views(words@) + words_of(s@) =~~= words_of(s@));
    }
    while i < cs.len()
        invariant
            i <= cs@.len(),
            cs@ == s@,
            no_space(cur@),
            words_of(s@) == word_views(words@) + words_of(cur@ + cs@.skip(i as int)),
        decreases cs@.len() - i,
    {
        let c = cs[i];
        if c == ' ' {
            proof {
                assert(cur@ + cs@.skip(i as int) =~= cur@ + seq![' '] + cs@.skip(i as int + 1));
                lemma_words_of_split(cur@, cs@.skip(i as int + 1));
                assert(word_views(words@.push(cur)) =~~= word_views(words@) + seq![cur@]);
                assert(Seq::<char>::empty() + cs@.skip(i as int + 1) =~= cs@.skip(i as int + 1));
                assert(word_views(words@.push(cur)) + words_of(cs@.skip(i as int + 1)) =~~= words_of(
                    s@,
                ));
            }
            words.push(cur);
            cur = Vec::new();
        } else {
            proof {
                assert(cur@ + cs@.skip(i as int) =~= cur@.push(c) + cs@.skip(i as int + 1));
            }
            cur.push(c);
        }
        i = i + 1;
    }
    proof {
        assert(cur@ + cs@.skip(i as int) =~= cur@);
        lemma_words_of_no_space(cur@);
        assert(word_views(words@.push(cur)) =~~= word_views(words@) + seq![cur@]);
        assert(word_views(words@.push(cur)) =~~= words_of(s@));
    }
    words.push(cur);
    let ghost ws = words_of(s@);
    let mut out: String = String::new();
    let mut cur_len: u128 = 0;
    let mut j: usize = 0;
    while j < words.len()
        invariant
            j <= words@.len(),
            word_views(words@) == ws,
            cur_len <= 71,
            out@ + wrap_from(ws, j as int, cur_len as int) == wrap(ws),
        decreases words@.len() - j,
    {
        let ghost out0 = out@;
        let ghost jj = j as int;
        let ghost cl = cur_len as int;
        let w = &words[j];
        proof {
            assert(ws[jj] == words@[jj]@);
        }
        push_chars(&mut out, w);
        let here: u128 = cur_len + (w.len() as u128);
        let next: u128 = if j + 1 < words.len() {
            proof {
                assert(ws[jj + 1] == words@[jj + 1]@);
            }
            here + (words[j + 1].len() as u128) + 1
        } else {
            here
        };
        if next > 70 {
            out.push('\n');
            cur_len = 0;
            proof {
                assert(wrap_from(ws, jj, cl) == ws[jj] + (seq!['\n'] + wrap_from(ws, jj + 1, 0)));
                assert(out@ =~= out0 + ws[jj] + seq!['\n']);
                assert(out@ + wrap_from(ws, jj + 1, 0) =~= out0 + wrap_from(ws, jj, cl));
            }
        } else if j + 1 < words.len() {
            out.push(' ');
            cur_len = here + 1;
            proof {
                assert(wrap_from(ws, jj, cl) == ws[jj] + (seq![' '] + wrap_from(
                    ws,
                    jj + 1,
                    cl + ws[jj].len() + 1,
                )));
                assert(out@ =~= out0 + ws[jj] + seq![' ']);
                assert(out@ + wrap_from(ws, jj + 1, cur_len as int) =~= out0 + wrap_from(
                    ws,
                    jj,
                    cl,
                ));
            }
        } else {
            cur_len = here;
            proof {
                assert(wrap_from(ws, jj, cl) == ws[jj] + Seq::<char>::empty());
                assert(out@ + wrap_from(ws, jj + 1, cur_len as int) =~= out0 + wrap_from(
                    ws,
                    jj,
                    cl,
                ));
            }
        }
        j = j + 1;
    }
    proof {
        assert(out@ + wrap_from(ws, j as int, cur_len as int) =~= out@);
    }
    out
}

/// A row-major grid of `n` black pixels.
pub open spec fn blank_grid(n: nat) -> Seq<Color> {
    Seq::new(n, |k: int| Color::spec_black())
}

/// A raster image: a `height` by `width` grid of colors, stored row-major.
/// Every pixel starts black; writes outside the grid are silently discarded.
#[derive(Debug)]
pub struct Canvas {
    pub width: usize,
    pub height: usize,
    pub pixels: Vec<Color>,
}

impl Canvas {
    /// The grid holds exactly one color per coordinate pair.
    pub open spec fn wf(self) -> bool {
        &&& self.pixels@.len() == self.width * self.height
        &&& self.width * self.height <= usize::MAX
    }

    /// The color at column `x` of row `y`.
    pub open spec fn pix(self, x: int, y: int) -> Color {
        self.pixels@[y * self.width + x]
    }

    /// Allocate a canvas with every pixel black.
    ///
    /// The grid needs one cell per coordinate pair, so the pixel count must
    /// fit the address space.
    pub fn new(width: usize, height: usize) -> (c: Canvas)
        requires
            width * height <= usize::MAX,
        ensures
            c.wf(),
            c.width == width,
            c.height == height,
            c.pixels@ == blank_grid((width * height) as nat),
            forall|x: int, y: int|
                0 <= x < width && 0 <= y < height ==> c.pix(x, y) == Color::spec_black(),
    {
        let n: usize = width * height;
        let mut pixels: Vec<Color> = Vec::new();
        let mut i: usize = 0;
        while i < n
            invariant
                i <= n,
                pixels@.len() == i,
                forall|k: int| 0 <= k < i ==> pixels@[k] == Color::spec_black(),
            decreases n - i,
        {
            pixels.push(Color::black());
            i = i + 1;
        }
        let c = Canvas { width, height, pixels };
        proof {
            assert(c.pixels@ =~= blank_grid((width * height) as nat));
            assert forall|x: int, y: int|
                0 <= x < width && 0 <= y < height implies c.pix(x, y) == Color::spec_black() by {
                lemma_grid_index(width as int, height as int, x, y);
            }
        }
        c
    }

    /// Set the pixel at `(x, y)`.  A coordinate at or beyond the edge leaves
    /// the canvas unchanged: out-of-range writes are intentionally discarded,
    /// never an error.
    pub fn write_pixel(&mut self, x: usize, y: usize, color: Color)
        requires
            old(self).wf(),
        ensures
            final(self).wf(),
            final(self).width == old(self).width,
            final(self).height == old(self).height,
            x < old(self).width && y < old(self).height ==> {
                &&& final(self).pix(x as int, y as int) == color
                &&& final(self).pixels@ == old(self).pixels@.update(
                    y as int * old(self).width + x as int,
                    color,
                )
                &&& forall|i: int, j: int|
                    0 <= i < old(self).width && 0 <= j < old(self).height && !(i == x && j == y)
                        ==> final(self).pix(i, j) == old(self).pix(i, j)
            },
            !(x < old(self).width && y < old(self).height) ==> *final(self) == *old(self),
    {
        if x >= self.width || y >= self.height {
            return ;
        }
        proof {
            lemma_grid_index(self.width as int, self.height as int, x as int, y as int);
        }
        let idx: usize = y * self.width + x;
        self.pixels.set(idx, color);
        proof {
            assert forall|i: int, j: int|
                0 <= i < self.width && 0 <= j < self.height && !(i == x && j == y)
                    implies self.pix(i, j) == old(self).pix(i, j) by {
                lemma_grid_index(self.width as int, self.height as int, i, j);
                lemma_grid_index_injective(self.width as int, i, j, x as int, y as int);
            }
        }
    }

    /// The colors of row `y`, left to right.
    pub open spec fn row_of(self, y: int) -> Seq<Color> {
        grid_row(self.width as int, self.pixels@, y)
    }

    /// The color at `(x, y)`, or nothing when the coordinate is off the grid.
    pub fn pixel_at(&self, x: usize, y: usize) -> (r: Option<Color>)
        requires
            self.wf(),
        ensures
            x < self.width && y < self.height ==> r == Some(self.pix(x as int, y as int)),
            !(x < self.width && y < self.height) ==> r is None,
    {
        if x >= self.width || y >= self.height {
            return None;
        }
        proof {
            lemma_grid_index(self.width as int, self.height as int, x as int, y as int);
        }
        Some(self.pixels[y * self.width + x])
    }
}

/// The serialized text of one pixel: its three channels quantized and
/// separated by single spaces.
pub open spec fn color_text(c: Color) -> Seq<char> {
    dec_rep(quantum(c.red) as nat) + seq![' '] + dec_rep(quantum(c.green) as nat) + seq![' ']
        + dec_rep(quantum(c.blue) as nat)
}

/// The serialized text of one pixel.
fn color_to_string(color: &Color) -> (s: String)
    ensures
        s@ == color_text(*color),
{
    let mut s = String::new();
    push_decimal(&mut s, quantize(color.red) as u64);
    s.push(' ');
    push_decimal(&mut s, quantize(color.green) as u64);
    s.push(' ');
    push_decimal(&mut s, quantize(color.blue) as u64);
    proof {
        assert(s@ =~= color_text(*color));
    }
    s
}

/// The text of one canvas row before wrapping: the pixels' texts joined by
/// single spaces.
pub open spec fn row_text(row: Seq<Color>) -> Seq<char>
    decreases row.len(),
{
    if row.len() == 0 {
        Seq::empty()
    } else if row.len() == 1 {
        color_text(row[0])
    } else {
        color_text(row[0]) + seq![' '] + row_text(row.drop_first())
    }
}

/// The text of one canvas row before wrapping.
fn row_to_string(colors: &Vec<Color>) -> (s: String)
    ensures
        s@ == row_text(colors@),
{
    let mut s = String::new();
    let mut i: usize = 0;
    proof {
        assert(colors@.skip(0) =~= colors@);
        assert(s@ + row_text(colors@) =~= row_text(colors@));
    }
    while i < colors.len()
        invariant
            i <= colors@.len(),
            s@ + row_text(colors@.skip(i as int)) == row_text(colors@),
        decreases colors@.len() - i,
    {
        let ghost s0 = s@;
        let ghost suffix = colors@.skip(i as int);
        let t = color_to_string(&colors[i]);
        s.append(t.as_str());
        proof {
            assert(suffix[0] == colors@[i as int]);
        }
        if i + 1 < colors.len() {
            s.push(' ');
            proof {
                assert(suffix.drop_first() =~= colors@.skip(i as int + 1));
                assert(row_text(suffix) == color_text(suffix[0]) + seq![' '] + row_text(
                    colors@.skip(i as int + 1),
                ));
                assert(s@ + row_text(colors@.skip(i as int + 1)) =~= s0 + row_text(suffix));
            }
        } else {
            proof {
                assert(row_text(suffix) == color_text(suffix[0]));
                assert(colors@.skip(i as int + 1) =~= Seq::<Color>::empty());
                assert(s@ + row_text(colors@.skip(i as int + 1)) =~= s0 + row_text(suffix));
            }
        }
        i = i + 1;
    }
    proof {
        assert(s@ + row_text(colors@.skip(i as int)) =~= s@);
    }
    s
}

/// A decimal rendering holds only digit characters: no space, no newline.
proof fn lemma_dec_rep_clean(n: nat)
    ensures
        no_space(dec_rep(n)),
        no_newline(dec_rep(n)),
    decreases n,
{
    if n < 10 {
        assert(digit(n as int) != ' ' && digit(n as int) != '\n');
    } else {
        lemma_dec_rep_clean(n / 10);
        let d = digit((n % 10) as int);
        assert(d != ' ' && d != '\n');
        assert forall|k: int| 0 <= k < dec_rep(n).len() implies dec_rep(n)[k] != ' ' && dec_rep(
            n,
        )[k] != '\n' by {
            if k < dec_rep(n / 10).len() {
                assert(dec_rep(n)[k] == dec_rep(n / 10)[k]);
            } else {
                assert(dec_rep(n)[k] == d);
            }
        }
    }
}

/// Two digits render two characters at most.
proof fn lemma_dec_rep_len2(n: nat)
    requires
        n < 100,
    ensures
        dec_rep(n).len() <= 2,
{
    if n >= 10 {
        assert(n / 10 < 10);
        assert(dec_rep(n / 10).len() == 1);
        assert(dec_rep(n) == dec_rep(n / 10).push(digit((n % 10) as int)));
    }
}

/// Three digits render three characters at most.
proof fn lemma_dec_rep_len3(n: nat)
    requires
        n < 1000,
    ensures
        dec_rep(n).len() <= 3,
{
    if n >= 10 {
        lemma_dec_rep_len2(n / 10);
    }
}

/// A channel word: the decimal rendering of one quantized channel.
pub open spec fn channel_word(b: u64) -> Seq<char> {
    dec_rep(quantum(b) as nat)
}

/// A channel word is at most three digit characters.
proof fn lemma_channel_word_clean(b: u64)
    ensures
        channel_word(b).len() <= 3,
        no_space(channel_word(b)),
        no_newline(channel_word(b)),
{
    crate::colors::lemma_quantum_in_range(b);
    lemma_dec_rep_len3(quantum(b) as nat);
    lemma_dec_rep_clean(quantum(b) as nat);
}

/// A pixel's text splits into its three channel words, and carries anything
/// joined behind it through the split.
proof fn lemma_words_of_color_prefix(c: Color, t: Seq<char>)
    ensures
        words_of(color_text(c) + seq![' '] + t) == seq![
            channel_word(c.red),
            channel_word(c.green),
            channel_word(c.blue),
        ] + words_of(t),
{
    let d1 = channel_word(c.red);
    let d2 = channel_word(c.green);
    let d3 = channel_word(c.blue);
    lemma_channel_word_clean(c.red);
    lemma_channel_word_clean(c.green);
    lemma_channel_word_clean(c.blue);
    assert(color_text(c) + seq![' '] + t =~= d1 + seq![' '] + (d2 + seq![' '] + (d3 + seq![' ']
        + t)));
    lemma_words_of_split(d1, d2 + seq![' '] + (d3 + seq![' '] + t));
    lemma_words_of_split(d2, d3 + seq![' '] + t);
    lemma_words_of_split(d3, t);
    assert(words_of(color_text(c) + seq![' '] + t) =~~= seq![d1, d2, d3] + words_of(t));
}

/// A lone pixel's text splits into exactly its three channel words.
proof fn lemma_words_of_color(c: Color)
    ensures
        words_of(color_text(c)) == seq![
            channel_word(c.red),
            channel_word(c.green),
            channel_word(c.blue),
        ],
{
    let d1 = channel_word(c.red);
    let d2 = channel_word(c.green);
    let d3 = channel_word(c.blue);
    lemma_channel_word_clean(c.red);
    lemma_channel_word_clean(c.green);
    lemma_channel_word_clean(c.blue);
    assert(color_text(c) =~= d1 + seq![' '] + (d2 + seq![' '] + d3));
    lemma_words_of_split(d1, d2 + seq![' '] + d3);
    lemma_words_of_split(d2, d3);
    lemma_words_of_no_space(d3);
    assert(words_of(color_text(c)) =~~= seq![d1, d2, d3]);
}

/// Every word of a row's text is one quantized channel: at most three digit
/// characters, never a space or newline.
proof fn lemma_row_text_words(row: Seq<Color>)
    ensures
        forall|k: int|
            0 <= k < words_of(row_text(row)).len() ==> {
                &&& (#[trigger] words_of(row_text(row))[k]).len() <= 3
                &&& no_newline(words_of(row_text(row))[k])
            },
    decreases row.len(),
{
    if row.len() == 0 {
        assert(words_of(row_text(row)) == seq![Seq::<char>::empty()]);
    } else if row.len() == 1 {
        lemma_words_of_color(row[0]);
        lemma_channel_word_clean(row[0].red);
        lemma_channel_word_clean(row[0].green);
        lemma_channel_word_clean(row[0].blue);
    } else {
        lemma_row_text_words(row.drop_first());
        lemma_words_of_color_prefix(row[0], row_text(row.drop_first()));
        lemma_channel_word_clean(row[0].red);
        lemma_channel_word_clean(row[0].green);
        lemma_channel_word_clean(row[0].blue);
        assert(words_of(row_text(row)) == seq![
            channel_word(row[0].red),
            channel_word(row[0].green),
            channel_word(row[0].blue),
        ] + words_of(row_text(row.drop_first())));
    }
}

/// Row `y` of a row-major grid that is `width` colors wide.
pub open spec fn grid_row(width: int, grid: Seq<Color>, y: int) -> Seq<Color> {
    grid.subrange(y * width, y * width + width)
}

/// The pixel-data text of a grid from row `y` down: every row's text is
/// wrapped at 70 characters and followed by a newline.
pub open spec fn ppm_rows(width: int, height: int, grid: Seq<Color>, y: int) -> Seq<char>
    decreases height - y,
{
    if y < 0 || y >= height {
        Seq::empty()
    } else {
        wrap(words_of(row_text(grid_row(width, grid, y)))) + seq!['\n'] + ppm_rows(
            width,
            height,
            grid,
            y + 1,
        )
    }
}

/// The whole PPM document for a grid: the magic token `P3`, the dimensions,
/// the maximum channel value 255, then the wrapped pixel rows.  The document
/// ends with a newline; a canvas with no rows still gets one, closing its
/// empty pixel section.
pub open spec fn ppm_text(width: int, height: int, grid: Seq<Color>) -> Seq<char> {
    seq!['P', '3', '\n'] + dec_rep(width as nat) + seq![' '] + dec_rep(height as nat) + seq![
        '\n',
        '2',
        '5',
        '5',
        '\n',
    ] + (if height == 0 {
        seq!['\n']
    } else {
        ppm_rows(width, height, grid, 0)
    })
}

/// The PPM document of a canvas.
pub open spec fn ppm_of(c: Canvas) -> Seq<char> {
    ppm_text(c.width as int, c.height as int, c.pixels@)
}

/// The tokens of one row: three channel words per pixel, row-major.
pub open spec fn row_tokens(row: Seq<Color>) -> Seq<Seq<char>>
    decreases row.len(),
{
    if row.len() == 0 {
        Seq::empty()
    } else {
        seq![channel_word(row[0].red), channel_word(row[0].green), channel_word(row[0].blue)]
            + row_tokens(row.drop_first())
    }
}

/// Law: a non-empty row's text splits at its spaces into exactly the pixels'
/// quantized channels, three decimal tokens per pixel, left to right.
pub proof fn lemma_row_text_tokens(row: Seq<Color>)
    requires
        row.len() > 0,
    ensures
        words_of(row_text(row)) == row_tokens(row),
    decreases row.len(),
{
    if row.len() == 1 {
        lemma_words_of_color(row[0]);
        assert(row_tokens(row.drop_first()) == Seq::<Seq<char>>::empty());
        assert(words_of(row_text(row)) =~~= row_tokens(row));
    } else {
        lemma_row_text_tokens(row.drop_first());
        lemma_words_of_color_prefix(row[0], row_text(row.drop_first()));
        assert(words_of(row_text(row)) =~~= row_tokens(row));
    }
}

/// Lines fitting a budget still fit after a fresh line is opened in front.
proof fn lemma_lines_within_concat(a: Seq<char>, b: Seq<char>, first: int, rest: int)
    requires
        lines_within(a, first, rest),
        lines_within(b, rest, rest),
    ensures
        lines_within(a + seq!['\n'] + b, first, rest),
    decreases a.len(),
{
    if a.len() == 0 {
        assert(a + seq!['\n'] + b =~= seq!['\n'] + b);
        assert((seq!['\n'] + b).drop_first() =~= b);
    } else {
        if a[0] == '\n' {
            lemma_lines_within_concat(a.drop_first(), b, rest, rest);
        } else {
            lemma_lines_within_concat(a.drop_first(), b, first - 1, rest);
        }
        assert((a + seq!['\n'] + b).drop_first() =~= a.drop_first() + seq!['\n'] + b);
    }
}

/// Law: every physical line of the serialized pixel data fits in 70
/// characters.  Each word of a row is one quantized channel of at most three
/// digits, and the greedy wrap breaks the line before any word that would
/// run it past 70.
pub proof fn lemma_ppm_rows_bounded(width: int, height: int, grid: Seq<Color>, y: int)
    ensures
        lines_within(ppm_rows(width, height, grid, y), 70, 70),
    decreases height - y,
{
    if 0 <= y && y < height {
        let row_words = words_of(row_text(grid_row(width, grid, y)));
        lemma_row_text_words(grid_row(width, grid, y));
        lemma_wrap_lines_bounded(row_words);
        lemma_ppm_rows_bounded(width, height, grid, y + 1);
        lemma_lines_within_concat(
            wrap(row_words),
            ppm_rows(width, height, grid, y + 1),
            70,
            70,
        );
    }
}

/// Twenty digits render at least any number a 64-bit machine word can hold.
proof fn lemma_dec_rep_len(n: nat, k: nat)
    requires
        k >= 1,
        n < pow(10, k),
    ensures
        dec_rep(n).len() <= k,
    decreases k,
{
    reveal(pow);
    if n >= 10 {
        assert(pow(10, k) == 10 * pow(10, (k - 1) as nat));
        if k == 1 {
            assert(pow(10, 0nat) == 1);
            assert(false);
        }
        assert(n / 10 < pow(10, (k - 1) as nat)) by {
            lemma_multiply_divide_lt(n as int, 10, pow(10, (k - 1) as nat) as int);
        }
        lemma_dec_rep_len(n / 10, (k - 1) as nat);
        assert(dec_rep(n) == dec_rep(n / 10).push(digit((n % 10) as int)));
    }
}

/// The concrete value of ten to the twentieth.
proof fn lemma_pow10_20()
    ensures
        pow(10, 20) == 100_000_000_000_000_000_000,
{
    reveal(pow);
    assert(pow(10, 0nat) == 1);
    assert(pow(10, 1nat) == 10);
    assert(pow(10, 2nat) == 100);
    assert(pow(10, 3nat) == 1000);
    assert(pow(10, 4nat) == 10000);
    assert(pow(10, 5nat) == 100000);
    assert(pow(10, 6nat) == 1000000);
    assert(pow(10, 7nat) == 10000000);
    assert(pow(10, 8nat) == 100000000);
    assert(pow(10, 9nat) == 1000000000);
    assert(pow(10, 10nat) == 10000000000);
    assert(pow(10, 11nat) == 100000000000);
    assert(pow(10, 12nat) == 1000000000000);
    assert(pow(10, 13nat) == 10000000000000);
    assert(pow(10, 14nat) == 100000000000000);
    assert(pow(10, 15nat) == 1000000000000000);
    assert(pow(10, 16nat) == 10000000000000000);
    assert(pow(10, 17nat) == 100000000000000000);
    assert(pow(10, 18nat) == 1000000000000000000);
    assert(pow(10, 19nat) == 10000000000000000000);
    assert(pow(10, 20nat) == 100000000000000000000);
}

/// Law: every physical line of the whole PPM document fits in 70 characters:
/// the magic token and the maximum channel value are fixed short lines, the
/// dimension line holds two machine words of at most twenty digits each, and
/// the pixel rows are wrapped.
pub proof fn lemma_ppm_document_bounded(width: int, height: int, grid: Seq<Color>)
    requires
        0 <= width <= usize::MAX,
        0 <= height <= usize::MAX,
    ensures
        lines_within(ppm_text(width, height, grid), 70, 70),
{
    let dw = dec_rep(width as nat);
    let dh = dec_rep(height as nat);
    lemma_pow10_20();
    lemma_dec_rep_len(width as nat, 20nat);
    lemma_dec_rep_len(height as nat, 20nat);
    lemma_dec_rep_clean(width as nat);
    lemma_dec_rep_clean(height as nat);
    let body = if height == 0 {
        seq!['\n']
    } else {
        ppm_rows(width, height, grid, 0)
    };
    if height == 0 {
        assert(body[0] == '\n');
        assert(body.drop_first() =~= Seq::<char>::empty());
        assert(lines_within(Seq::<char>::empty(), 70, 70));
        assert(lines_within(body, 70, 70));
    } else {
        lemma_ppm_rows_bounded(width, height, grid, 0);
    }
    let max_line = seq!['2', '5', '5'];
    assert(no_newline(max_line)) by {
        assert(forall|k: int| 0 <= k < 3 ==> max_line[k] != '\n');
    }
    lemma_lines_within_prepend(max_line, Seq::empty(), 70, 70);
    assert(max_line + Seq::<char>::empty() =~= max_line);
    lemma_lines_within_concat(max_line, body, 70, 70);
    let b1 = max_line + seq!['\n'] + body;
    let dims = dw + seq![' '] + dh;
    assert(no_newline(dims)) by {
        assert(forall|k: int|
            0 <= k < dims.len() ==> {
                &&& k < dw.len() ==> dims[k] == dw[k]
                &&& k == dw.len() ==> dims[k] == ' '
                &&& k > dw.len() ==> dims[k] == dh[k - dw.len() - 1]
            });
    }
    lemma_lines_within_prepend(dims, Seq::empty(), 70, 70);
    assert(dims + Seq::<char>::empty() =~= dims);
    lemma_lines_within_concat(dims, b1, 70, 70);
    let b2 = dims + seq!['\n'] + b1;
    let magic = seq!['P', '3'];
    assert(no_newline(magic)) by {
        assert(forall|k: int| 0 <= k < 2 ==> magic[k] != '\n');
    }
    lemma_lines_within_prepend(magic, Seq::empty(), 70, 70);
    assert(magic + Seq::<char>::empty() =~= magic);
    lemma_lines_within_concat(magic, b2, 70, 70);
    assert(ppm_text(width, height, grid) =~= magic + seq!['\n'] + b2);
}

/// Copy row `y` of the canvas out of the row-major grid.
fn copy_row(canvas: &Canvas, y: usize) -> (row: Vec<Color>)
    requires
        canvas.wf(),
        y < canvas.height,
    ensures
        row@ == canvas.row_of(y as int),
{
    let mut row: Vec<Color> = Vec::new();
    let mut x: usize = 0;
    proof {
        assert(0 <= y as int * canvas.width && y as int * canvas.width + canvas.width
            <= canvas.width * canvas.height) by (nonlinear_arith)
            requires
                0 <= y < canvas.height,
                canvas.width >= 0,
        ;
    }
    while x < canvas.width
        invariant
            canvas.wf(),
            y < canvas.height,
            x <= canvas.width,
            0 <= y as int * canvas.width,
            y as int * canvas.width + canvas.width <= canvas.pixels@.len(),
            row@ =~= canvas.pixels@.subrange(
                y as int * canvas.width,
                y as int * canvas.width + x,
            ),
        decreases canvas.width - x,
    {
        proof {
            lemma_grid_index(canvas.width as int, canvas.height as int, x as int, y as int);
        }
        row.push(canvas.pixels[y * canvas.width + x]);
        x = x + 1;
    }
    row
}

/// Serialize a canvas to the plain-text PPM image format: a three-line
/// header (`P3`, the width and height, `255`), then each row of pixels as
/// space-separated quantized channel values, wrapped so that no physical
/// line runs past 70 characters, with a trailing newline.
pub fn canvas_to_ppm(canvas: &Canvas) -> (r: String)
    requires
        canvas.wf(),
    ensures
        r@ == ppm_of(*canvas),
{
    let mut out: String = String::new();
    out.push('P');
    out.push('3');
    out.push('\n');
    push_decimal(&mut out, canvas.width as u64);
    out.push(' ');
    push_decimal(&mut out, canvas.height as u64);
    out.push('\n');
    out.push('2');
    out.push('5');
    out.push('5');
    out.push('\n');
    if canvas.height == 0 {
        out.push('\n');
        proof {
            assert(out@ =~= ppm_of(*canvas));
        }
        return out;
    }
    let ghost header = out@;
    let mut y: usize = 0;
    while y < canvas.height
        invariant
            canvas.wf(),
            y <= canvas.height,
            out@ + ppm_rows(canvas.width as int, canvas.height as int, canvas.pixels@, y as int) == header + ppm_rows(canvas.width as int, canvas.height as int, canvas.pixels@, 0),
        decreases canvas.height - y,
    {
        let ghost out0 = out@;
        let row = copy_row(canvas, y);
        let line = split_long_lines(row_to_string(&row));
        out.append(line.as_str());
        out.push('\n');
        proof {
            assert(ppm_rows(canvas.width as int, canvas.height as int, canvas.pixels@, y as int) == wrap(words_of(row_text(canvas.row_of(y as int))))
                + seq!['\n'] + ppm_rows(canvas.width as int, canvas.height as int, canvas.pixels@, y as int + 1));
            assert(out@ + ppm_rows(canvas.width as int, canvas.height as int, canvas.pixels@, y as int + 1) =~= out0 + ppm_rows(canvas.width as int, canvas.height as int, canvas.pixels@, y as int));
        }
        y = y + 1;
    }
    proof {
        assert(out@ + ppm_rows(canvas.width as int, canvas.height as int, canvas.pixels@, y as int) =~= out@);
        assert(header + ppm_rows(canvas.width as int, canvas.height as int, canvas.pixels@, 0) =~= ppm_of(*canvas));
    }
    out
}

/// A row-major index stays inside the grid.
proof fn lemma_grid_index(width: int, height: int, x: int, y: int)
    requires
        0 <= x < width,
        0 <= y < height,
    ensures
        0 <= y * width + x < width * height,
{
    assert(y * width + x < width * height) by (nonlinear_arith)
        requires
            0 <= x < width,
            0 <= y < height,
    ;
    assert(y * width >= 0) by (nonlinear_arith)
        requires
            y >= 0,
            width > 0,
    ;
}

/// Distinct coordinates get distinct row-major indices.
proof fn lemma_grid_index_injective(width: int, x1: int, y1: int, x2: int, y2: int)
    requires
        0 <= x1 < width,
        0 <= x2 < width,
        0 <= y1,
        0 <= y2,
        !(x1 == x2 && y1 == y2),
    ensures
        y1 * width + x1 != y2 * width + x2,
{
    assert(y1 * width + x1 != y2 * width + x2) by (nonlinear_arith)
        requires
            0 <= x1 < width,
            0 <= x2 < width,
            0 <= y1,
            0 <= y2,
            !(x1 == x2 && y1 == y2),
    ;
}

} // verus!
