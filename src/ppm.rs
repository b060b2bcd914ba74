//! Serialization of a canvas to the plain-text PPM image format.
use vstd::prelude::*;
use vstd::string::StringExecFns;
use vstd::string::StrSliceExecFns;
use crate::canvas::Canvas;
use crate::decimal::{append_decimal, decimal, lemma_decimal_digits, lemma_decimal_len};
use vstd::arithmetic::power::pow;

verus! {

/// The largest channel value of the image, and the factor by which a color
/// channel of nominal range `[0, 1]` is scaled.
pub const COLOR_SCALE: i64 = 255;

/// The number of characters past which a line of pixel data is wrapped.
pub const MAX_LINE_LEN: usize = 69;

/// A color whose channels have already been multiplied by `COLOR_SCALE` and
/// truncated toward zero, but not yet clamped to `[0, COLOR_SCALE]`.
#[derive(Clone, Copy, Debug, PartialEq, Eq, Structural)]
pub struct ScaledColor {
    pub red: i64,
    pub green: i64,
    pub blue: i64,
}

impl ScaledColor {
    pub fn new(red: i64, green: i64, blue: i64) -> (r: ScaledColor)
        ensures
            r == (ScaledColor { red, green, blue }),
    {
        ScaledColor { red, green, blue }
    }
}

/// `v` brought into `[0, COLOR_SCALE]`.
pub open spec fn clamp_channel(v: int) -> nat {
    if v < 0 {
        0
    } else if v > COLOR_SCALE {
        COLOR_SCALE as nat
    } else {
        v as nat
    }
}

/// The text of one pixel: its three clamped channels, each followed by a
/// space.
pub open spec fn pixel_text(p: ScaledColor) -> Seq<char> {
    decimal(clamp_channel(p.red as int)) + seq![' '] + decimal(clamp_channel(p.green as int))
        + seq![' '] + decimal(clamp_channel(p.blue as int)) + seq![' ']
}

/// The header: magic token, dimensions and largest channel value, each on a
/// line of its own.
pub open spec fn header_text(width: nat, height: nat) -> Seq<char> {
    seq!['P', '3', '\n'] + decimal(width) + seq![' '] + decimal(height) + seq!['\n'] + decimal(
        COLOR_SCALE as nat,
    ) + seq!['\n']
}

/// Lays out `tokens` greedily, in order: the text of the completed lines, each
/// ending in a newline, and the line still open. A token goes on the open
/// line unless that would make the line longer than `MAX_LINE_LEN`
/// characters; then the open line is closed first.
pub open spec fn wrap_state(tokens: Seq<Seq<char>>) -> (Seq<char>, Seq<char>)
    decreases tokens.len(),
{
    if tokens.len() == 0 {
        (Seq::empty(), Seq::empty())
    } else {
        let (done, line) = wrap_state(tokens.drop_last());
        let t = tokens.last();
        if line.len() + t.len() > MAX_LINE_LEN {
            (done + line.push('\n'), t)
        } else {
            (done, line + t)
        }
    }
}

/// The wrapped text of `tokens`, with the last line left open.
pub open spec fn wrap_lines(tokens: Seq<Seq<char>>) -> Seq<char> {
    wrap_state(tokens).0 + wrap_state(tokens).1
}

/// The text of every pixel, in buffer order.
pub open spec fn pixel_texts(cells: Seq<ScaledColor>) -> Seq<Seq<char>> {
    cells.map_values(|p: ScaledColor| pixel_text(p))
}

/// The whole image text of a `width` by `height` canvas with the given cells.
pub open spec fn ppm_text(width: nat, height: nat, cells: Seq<ScaledColor>) -> Seq<char> {
    header_text(width, height) + wrap_lines(pixel_texts(cells))
}

/// Whether `s` holds no newline.
pub open spec fn newline_free(s: Seq<char>) -> bool {
    forall|k: int| 0 <= k < s.len() ==> s[k] != '\n'
}

/// Whether every stretch of `s` without a newline, that is every line or
/// part of one, holds at most `MAX_LINE_LEN` characters.
pub open spec fn lines_fit(s: Seq<char>) -> bool {
    forall|i: int, j: int|
        0 <= i <= j <= s.len() && #[trigger] newline_free(s.subrange(i, j)) ==> j - i
            <= MAX_LINE_LEN
}

/// `s` without its newlines.
pub open spec fn strip_newlines(s: Seq<char>) -> Seq<char> {
    s.filter(|c: char| c != '\n')
}

/// Whether `tokens` can be laid out in lines: none holds a newline or is
/// longer than a line.
pub open spec fn layable(tokens: Seq<Seq<char>>) -> bool {
    forall|k: int|
        0 <= k < tokens.len() ==> #[trigger] tokens[k].len() <= MAX_LINE_LEN && newline_free(
            tokens[k],
        )
}

proof fn lemma_lines_fit_short(s: Seq<char>)
    requires
        s.len() <= MAX_LINE_LEN,
    ensures
        lines_fit(s),
{
}

proof fn lemma_lines_fit_closed_line(line: Seq<char>)
    requires
        line.len() <= MAX_LINE_LEN,
    ensures
        lines_fit(line.push('\n')),
{
    let s = line.push('\n');
    assert forall|i: int, j: int|
        0 <= i <= j <= s.len() && #[trigger] newline_free(s.subrange(i, j)) implies j - i
        <= MAX_LINE_LEN by {
        if j == s.len() && i < j {
            assert(s.subrange(i, j)[j - 1 - i] == '\n');
        }
    }
}

proof fn lemma_lines_fit_concat(a: Seq<char>, b: Seq<char>)
    requires
        lines_fit(a),
        lines_fit(b),
        a.len() == 0 || a.last() == '\n',
    ensures
        lines_fit(a + b),
{
    let s = a + b;
    assert forall|i: int, j: int|
        0 <= i <= j <= s.len() && #[trigger] newline_free(s.subrange(i, j)) implies j - i
        <= MAX_LINE_LEN by {
        if j <= a.len() {
            assert(s.subrange(i, j) =~= a.subrange(i, j));
        } else if i >= a.len() {
            assert(s.subrange(i, j) =~= b.subrange(i - a.len(), j - a.len()));
        } else {
            assert(s.subrange(i, j)[a.len() - 1 - i] == '\n');
        }
    }
}

proof fn lemma_strip_newline_free(s: Seq<char>)
    requires
        newline_free(s),
    ensures
        strip_newlines(s) == s,
    decreases s.len(),
{
    reveal(Seq::filter);
    if s.len() > 0 {
        lemma_strip_newline_free(s.drop_last());
        assert(s.drop_last().push(s.last()) =~= s);
    }
}

proof fn lemma_strip_closed_line(done: Seq<char>, line: Seq<char>)
    requires
        newline_free(line),
    ensures
        strip_newlines(done + line.push('\n')) == strip_newlines(done) + line,
{
    broadcast use Seq::filter_distributes_over_add;

    lemma_strip_newline_free(line);
    let s = done + line;
    assert(done + line.push('\n') =~= s.push('\n'));
    assert(s.push('\n').drop_last() =~= s);
    assert(strip_newlines(s.push('\n')) == strip_newlines(s)) by {
        reveal(Seq::filter);
    }
    assert(strip_newlines(s) == strip_newlines(done) + strip_newlines(line));
}

proof fn lemma_wrap_state(tokens: Seq<Seq<char>>)
    requires
        layable(tokens),
    ensures
        lines_fit(wrap_state(tokens).0),
        wrap_state(tokens).0.len() == 0 || wrap_state(tokens).0.last() == '\n',
        wrap_state(tokens).1.len() <= MAX_LINE_LEN,
        newline_free(wrap_state(tokens).1),
        strip_newlines(wrap_state(tokens).0) + wrap_state(tokens).1 == tokens.flatten(),
    decreases tokens.len(),
{
    if tokens.len() > 0 {
        let prev = tokens.drop_last();
        let t = tokens.last();
        assert(layable(prev)) by {
            assert forall|k: int| 0 <= k < prev.len() implies #[trigger] prev[k].len()
                <= MAX_LINE_LEN && newline_free(prev[k]) by {
                assert(prev[k] == tokens[k]);
            }
        }
        assert(t.len() <= MAX_LINE_LEN && newline_free(t)) by {
            assert(t == tokens[tokens.len() - 1]);
        }
        lemma_wrap_state(prev);
        let (done, line) = wrap_state(prev);
        assert(prev.push(t) =~= tokens);
        prev.lemma_flatten_push(t);
        if line.len() + t.len() > MAX_LINE_LEN {
            lemma_lines_fit_closed_line(line);
            lemma_lines_fit_concat(done, line.push('\n'));
            lemma_strip_closed_line(done, line);
        } else {
            assert(newline_free(line + t)) by {
                assert forall|k: int| 0 <= k < (line + t).len() implies (line + t)[k] != '\n' by {
                    if k >= line.len() {
                        assert((line + t)[k] == t[k - line.len()]);
                    }
                }
            }
            assert(strip_newlines(done) + (line + t) =~= (strip_newlines(done) + line) + t);
        }
    }
}

/// Wrapping never makes a line longer than `MAX_LINE_LEN` characters, and
/// removes nothing: without its newlines the text is the tokens one after
/// the other.
pub proof fn lemma_wrap_lines(tokens: Seq<Seq<char>>)
    requires
        layable(tokens),
    ensures
        lines_fit(wrap_lines(tokens)),
        strip_newlines(wrap_lines(tokens)) == tokens.flatten(),
{
    broadcast use Seq::filter_distributes_over_add;

    lemma_wrap_state(tokens);
    let (done, line) = wrap_state(tokens);
    lemma_lines_fit_short(line);
    lemma_lines_fit_concat(done, line);
    lemma_strip_newline_free(line);
}

proof fn lemma_digits_newline_free(n: nat)
    ensures
        newline_free(decimal(n)),
{
    lemma_decimal_digits(n);
}

proof fn lemma_pixel_texts_layable(cells: Seq<ScaledColor>)
    ensures
        layable(pixel_texts(cells)),
{
    let tokens = pixel_texts(cells);
    assert forall|k: int| 0 <= k < tokens.len() implies #[trigger] tokens[k].len()
        <= MAX_LINE_LEN && newline_free(tokens[k]) by {
        let p = cells[k];
        let (r, g, b) = (
            clamp_channel(p.red as int),
            clamp_channel(p.green as int),
            clamp_channel(p.blue as int),
        );
        lemma_channel_text_len(r);
        lemma_channel_text_len(g);
        lemma_channel_text_len(b);
        lemma_digits_newline_free(r);
        lemma_digits_newline_free(g);
        lemma_digits_newline_free(b);
        let t = pixel_text(p);
        assert(tokens[k] == t);
        assert forall|i: int| 0 <= i < t.len() implies t[i] != '\n' by {
            let (dr, dg, db) = (decimal(r), decimal(g), decimal(b));
            if i < dr.len() {
                assert(t[i] == dr[i]);
            } else if i == dr.len() {
            } else if i < dr.len() + 1 + dg.len() {
                assert(t[i] == dg[i - dr.len() - 1]);
            } else if i == dr.len() + 1 + dg.len() {
            } else if i < dr.len() + 2 + dg.len() + db.len() {
                assert(t[i] == db[i - dr.len() - dg.len() - 2]);
            }
        }
    }
}

proof fn lemma_header_lines_fit(width: nat, height: nat)
    requires
        width <= i32::MAX,
        height <= i32::MAX,
    ensures
        lines_fit(header_text(width, height)),
        header_text(width, height).last() == '\n',
{
    assert(pow(10, 10) == 10000000000) by {
        reveal_with_fuel(pow, 11);
    }
    lemma_decimal_len(width, 10);
    lemma_decimal_len(height, 10);
    lemma_decimal_len(COLOR_SCALE as nat, 10);
    let magic = seq!['P', '3', '\n'];
    let dims = decimal(width) + seq![' '] + decimal(height) + seq!['\n'];
    let depth = decimal(COLOR_SCALE as nat) + seq!['\n'];
    lemma_lines_fit_short(magic);
    lemma_lines_fit_short(dims);
    lemma_lines_fit_short(depth);
    lemma_lines_fit_concat(magic, dims);
    lemma_lines_fit_concat(magic + dims, depth);
    assert(header_text(width, height) =~= magic + dims + depth);
}

/// No line of the image text of a canvas holds more than `MAX_LINE_LEN`
/// characters, and the pixel data without its newlines is the text of every
/// pixel one after another.
pub proof fn lemma_ppm_layout(width: nat, height: nat, cells: Seq<ScaledColor>)
    requires
        width <= i32::MAX,
        height <= i32::MAX,
    ensures
        lines_fit(ppm_text(width, height, cells)),
        ppm_text(width, height, cells) == header_text(width, height) + wrap_lines(
            pixel_texts(cells),
        ),
        strip_newlines(wrap_lines(pixel_texts(cells))) == pixel_texts(cells).flatten(),
{
    lemma_pixel_texts_layable(cells);
    lemma_wrap_lines(pixel_texts(cells));
    lemma_header_lines_fit(width, height);
    lemma_lines_fit_concat(header_text(width, height), wrap_lines(pixel_texts(cells)));
}

/// A channel value brought into `[0, COLOR_SCALE]`.
pub fn clamp(v: i64) -> (r: u64)
    ensures
        r == clamp_channel(v as int),
{
    if v < 0 {
        0
    } else if v > COLOR_SCALE {
        COLOR_SCALE as u64
    } else {
        v as u64
    }
}

proof fn lemma_channel_text_len(n: nat)
    requires
        n <= COLOR_SCALE,
    ensures
        1 <= decimal(n).len() <= 3,
{
    reveal_with_fuel(decimal, 3);
}

/// The text of the pixel `p`, as it stands in the image.
pub fn format_pixel(p: ScaledColor) -> (r: String)
    ensures
        r@ == pixel_text(p),
        r@.len() <= 12,
{
    let mut r = String::new();
    proof {
        reveal_strlit(" ");
        lemma_channel_text_len(clamp_channel(p.red as int));
        lemma_channel_text_len(clamp_channel(p.green as int));
        lemma_channel_text_len(clamp_channel(p.blue as int));
    }
    append_decimal(&mut r, clamp(p.red));
    r.append(" ");
    append_decimal(&mut r, clamp(p.green));
    r.append(" ");
    append_decimal(&mut r, clamp(p.blue));
    r.append(" ");
    assert(r@ =~= pixel_text(p));
    r
}

/// Appends the header of a `width` by `height` image to `out`.
fn append_header(out: &mut String, width: u64, height: u64)
    ensures
        final(out)@ == old(out)@ + header_text(width as nat, height as nat),
{
    proof {
        reveal_strlit("P3\n");
        reveal_strlit(" ");
        reveal_strlit("\n");
    }
    out.append("P3\n");
    append_decimal(out, width);
    out.append(" ");
    append_decimal(out, height);
    out.append("\n");
    append_decimal(out, COLOR_SCALE as u64);
    out.append("\n");
    assert(out@ =~= old(out)@ + header_text(width as nat, height as nat));
}

impl Canvas<ScaledColor> {
    /// The image text of `canvas`: the header, then the text of every pixel
    /// in row-major order, wrapped before any line would grow past
    /// `MAX_LINE_LEN` characters.
    pub fn canvas_to_ppm(canvas: &Canvas<ScaledColor>) -> (r: String)
        ensures
            r@ == ppm_text(canvas.spec_width() as nat, canvas.spec_height() as nat, canvas@),
    {
        proof {
            use_type_invariant(canvas);
        }
        let cells = canvas.pixels();
        let ghost tokens = pixel_texts(cells@);
        let mut out = String::new();
        append_header(&mut out, canvas.width() as u64, canvas.height() as u64);
        let ghost header = out@;
        let mut row = String::new();
        let mut row_len: usize = 0;
        let mut i: usize = 0;
        assert(tokens.subrange(0, 0) =~= Seq::<Seq<char>>::empty());
        while i < cells.len()
            invariant
                i <= cells@.len(),
                tokens == pixel_texts(cells@),
                header == header_text(canvas.spec_width() as nat, canvas.spec_height() as nat),
                out@ == header + wrap_state(tokens.subrange(0, i as int)).0,
                row@ == wrap_state(tokens.subrange(0, i as int)).1,
                row_len == row@.len(),
                row_len <= MAX_LINE_LEN,
            decreases cells.len() - i,
        {
            let tok = format_pixel(cells[i]);
            let tok_len = tok.as_str().unicode_len();
            let ghost prev = tokens.subrange(0, i as int);
            assert(tokens.subrange(0, i + 1).drop_last() =~= prev);
            assert(tokens.subrange(0, i + 1).last() == tok@);
            if row_len + tok_len > MAX_LINE_LEN {
                proof {
                    reveal_strlit("\n");
                }
                row.append("\n");
                out.append(row.as_str());
                assert(out@ =~= header + (wrap_state(prev).0 + wrap_state(prev).1.push('\n')));
                row = String::new();
                row_len = 0;
            }
            row.append(tok.as_str());
            row_len = row_len + tok_len;
            i = i + 1;
        }
        out.append(row.as_str());
        assert(tokens.subrange(0, i as int) =~= tokens);
        assert(out@ =~= ppm_text(canvas.spec_width() as nat, canvas.spec_height() as nat, canvas@));
        out
    }
}

} // verus!
