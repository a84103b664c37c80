//! A game shown as text or drawn as SVG.

use crate::game::Game;
use crate::game::columns;
use crate::seed::encode;
use crate::text::decimal;
use crate::text::digit;
use crate::text::lemma_encode_utf8_concat;
use crate::text::push_all;
use crate::text::push_decimal;
use crate::text::string_from_utf8;
use crate::xml::Attribute;
use crate::xml::Markup;
use crate::xml::Tag;
use crate::xml::attribute;
use crate::xml::empty_tag;
use crate::xml::end_tag;
use crate::xml::into_bytes;
use crate::xml::lemma_escaped_plain;
use crate::xml::new_writer;
use crate::xml::reserved;
use crate::xml::start_tag;
use crate::xml::write_event;
use crate::xml::written;
use quick_xml::Writer;
use vstd::prelude::*;
use vstd::utf8::decode_utf8;
use vstd::utf8::encode_utf8;
use vstd::utf8::encode_utf8_decode_utf8;
use vstd::utf8::encode_utf8_valid_utf8;
use vstd::utf8::valid_utf8;

verus! {

/// The symbols of a board written as text.
pub struct TextOptions {
    pub alive: char,
    pub dead: char,
    pub separator: char,
}

impl TextOptions {
    /// The given symbols; `#` for alive, `.` for dead and a line feed
    /// between rows where none is given.
    pub fn new(alive: Option<char>, dead: Option<char>, separator: Option<char>) -> (opts: Self)
        ensures
            opts.alive == alive.unwrap_or('#'),
            opts.dead == dead.unwrap_or('.'),
            opts.separator == separator.unwrap_or('\n'),
    {
        Self {
            alive: alive.unwrap_or('#'),
            dead: dead.unwrap_or('.'),
            separator: separator.unwrap_or('\n'),
        }
    }
}

impl Default for TextOptions {
    fn default() -> (opts: Self)
        ensures
            opts.alive == '#',
            opts.dead == '.',
            opts.separator == '\n',
    {
        Self::new(None, None, None)
    }
}

/// Writes the board of `game` as text, in the form that a seed has.
pub fn text(game: &Game, opts: TextOptions) -> (s: String)
    ensures
        s@ == encode(game.board@, opts.alive, opts.dead, opts.separator),
{
    game.board.stringify(opts.alive, opts.dead, opts.separator)
}

/// How a board is drawn as SVG. Lengths are in user units.
pub struct SVGOptions {
    /// The side of one cell's square.
    pub cell_size: usize,
    pub stroke_width: usize,
    pub stroke_color: String,
    pub fill_color: String,
}

impl SVGOptions {
    /// The given options; cells of 20 with a white stroke of 2 and a black
    /// fill where none is given.
    pub fn new(
        cell_size: Option<usize>,
        stroke_width: Option<usize>,
        stroke_color: Option<String>,
        fill_color: Option<String>,
    ) -> (opts: Self)
        ensures
            opts.cell_size == cell_size.unwrap_or(20),
            opts.stroke_width == stroke_width.unwrap_or(2),
            opts.stroke_color@ == match stroke_color {
                Some(color) => color@,
                None => "white"@,
            },
            opts.fill_color@ == match fill_color {
                Some(color) => color@,
                None => "black"@,
            },
    {
        Self {
            cell_size: cell_size.unwrap_or(20),
            stroke_width: stroke_width.unwrap_or(2),
            stroke_color: match stroke_color {
                Some(color) => color,
                None => "white".to_owned(),
            },
            fill_color: match fill_color {
                Some(color) => color,
                None => "black".to_owned(),
            },
        }
    }
}

impl Default for SVGOptions {
    fn default() -> (opts: Self)
        ensures
            opts.cell_size == 20,
            opts.stroke_width == 2,
            opts.stroke_color@ == "white"@,
            opts.fill_color@ == "black"@,
    {
        Self::new(None, None, None, None)
    }
}

/// Why a rendering failed.
#[derive(Debug)]
pub enum RenderError {
    /// The XML writer refused an event. A writer over a byte vector, as
    /// `svg` uses it, never does.
    Write(quick_xml::Error),
    /// What the writer produced is not UTF-8.
    Encoding,
}

/// The opening `svg` tag of a canvas of the given size.
pub open spec fn canvas(width: nat, height: nat) -> Seq<char> {
    start_tag(
        "svg"@ + attribute("xmlns"@, "http://www.w3.org/2000/svg"@) + attribute(
            "width"@,
            decimal(width),
        ) + attribute("height"@, decimal(height)),
    )
}

/// The square of one alive cell whose upper left corner is at (`x`, `y`).
pub open spec fn rectangle(
    x: nat,
    y: nat,
    cell_size: nat,
    stroke_width: nat,
    stroke_color: Seq<char>,
    fill_color: Seq<char>,
) -> Seq<char> {
    empty_tag(
        "rect"@ + attribute("x"@, decimal(x)) + attribute("y"@, decimal(y)) + attribute(
            "width"@,
            decimal(cell_size),
        ) + attribute("height"@, decimal(cell_size)) + attribute("fill"@, fill_color) + attribute(
            "stroke"@,
            stroke_color,
        ) + attribute("stroke-width"@, decimal(stroke_width)),
    )
}

/// What the caption says: the generation and the last delta.
pub open spec fn caption_line(generation: nat, delta: nat) -> Seq<char> {
    "t = "@ + decimal(generation) + ", Δ = "@ + decimal(delta)
}

/// The opening tag of the caption: centred, 5 units above the lower edge of
/// a canvas of the given height.
pub open spec fn caption_open(height: nat, fill_color: Seq<char>) -> Seq<char> {
    start_tag(
        "text"@ + attribute("x"@, "50%"@) + attribute("y"@, decimal((height - 5) as nat))
            + attribute("font-family"@, "monospace"@) + attribute("font-size"@, "12"@) + attribute(
            "fill"@,
            fill_color,
        ) + attribute("dominant-baseline"@, "center"@) + attribute("text-anchor"@, "middle"@),
    )
}

/// The caption element.
pub open spec fn caption(height: nat, generation: nat, delta: nat, fill_color: Seq<char>) -> Seq<
    char,
> {
    caption_open(height, fill_color) + caption_line(generation, delta) + end_tag("text"@)
}

impl SVGOptions {
    /// The square of the cell in row `row` and column `col`.
    pub open spec fn square(&self, row: int, col: int) -> Seq<char> {
        rectangle(
            (col * self.cell_size) as nat,
            (row * self.cell_size) as nat,
            self.cell_size as nat,
            self.stroke_width as nat,
            self.stroke_color@,
            self.fill_color@,
        )
    }

    /// The squares of the alive cells among the first `upto` of row `row`,
    /// from left to right.
    pub open spec fn row_squares(&self, cells: Seq<bool>, row: int, upto: int) -> Seq<char>
        decreases upto,
    {
        if upto <= 0 {
            Seq::empty()
        } else {
            self.row_squares(cells, row, upto - 1) + if cells[upto - 1] {
                self.square(row, upto - 1)
            } else {
                Seq::empty()
            }
        }
    }

    /// The squares of the alive cells in the first `upto` rows, row by row.
    pub open spec fn squares(&self, grid: Seq<Seq<bool>>, upto: int) -> Seq<char>
        decreases upto,
    {
        if upto <= 0 {
            Seq::empty()
        } else {
            self.squares(grid, upto - 1) + self.row_squares(
                grid[upto - 1],
                upto - 1,
                grid[upto - 1].len() as int,
            )
        }
    }

    /// The whole drawing of a board: a canvas as wide as the board and 20
    /// units higher, one square for each alive cell, and the caption.
    pub open spec fn document(&self, grid: Seq<Seq<bool>>, generation: nat, delta: nat) -> Seq<
        char,
    > {
        let width = (columns(grid) * self.cell_size) as nat;
        let height = (grid.len() * self.cell_size + 20) as nat;
        canvas(width, height) + self.squares(grid, grid.len() as int)
            + caption(height, generation, delta, self.fill_color@) + end_tag("svg"@)
    }
}

/// No cell of `grid` is alive.
pub open spec fn blank(grid: Seq<Seq<bool>>) -> bool {
    forall|r: int, c: int| 0 <= r < grid.len() && 0 <= c < grid[r].len() ==> !#[trigger] grid[r][c]
}

/// A row without an alive cell has no square.
pub proof fn lemma_blank_row(opts: &SVGOptions, cells: Seq<bool>, row: int, upto: int)
    requires
        upto <= cells.len(),
        forall|c: int| 0 <= c < cells.len() ==> !#[trigger] cells[c],
    ensures
        opts.row_squares(cells, row, upto) == Seq::<char>::empty(),
    decreases upto,
{
    if upto > 0 {
        lemma_blank_row(opts, cells, row, upto - 1);
        assert(!cells[upto - 1]);
        assert(Seq::<char>::empty() + Seq::<char>::empty() =~= Seq::<char>::empty());
    }
}

/// Rows without an alive cell have no square.
pub proof fn lemma_blank_rows(opts: &SVGOptions, grid: Seq<Seq<bool>>, upto: int)
    requires
        upto <= grid.len(),
        blank(grid),
    ensures
        opts.squares(grid, upto) == Seq::<char>::empty(),
    decreases upto,
{
    if upto > 0 {
        lemma_blank_rows(opts, grid, upto - 1);
        assert forall|c: int| 0 <= c < grid[upto - 1].len() implies !#[trigger] grid[upto - 1][c] by {
            assert(!grid[upto - 1][c]);
        }
        lemma_blank_row(opts, grid[upto - 1], upto - 1, grid[upto - 1].len() as int);
        assert(Seq::<char>::empty() + Seq::<char>::empty() =~= Seq::<char>::empty());
    }
}

/// The drawing of a board without an alive cell holds no square: it is the
/// canvas, the caption and the end of the canvas.
pub proof fn lemma_blank_document(
    opts: &SVGOptions,
    grid: Seq<Seq<bool>>,
    generation: nat,
    delta: nat,
)
    requires
        blank(grid),
    ensures
        opts.squares(grid, grid.len() as int) == Seq::<char>::empty(),
        opts.document(grid, generation, delta) == canvas(
            (columns(grid) * opts.cell_size) as nat,
            (grid.len() * opts.cell_size + 20) as nat,
        ) + caption(
            (grid.len() * opts.cell_size + 20) as nat,
            generation,
            delta,
            opts.fill_color@,
        ) + end_tag("svg"@),
{
    lemma_blank_rows(opts, grid, grid.len() as int);
    let head = canvas(
        (columns(grid) * opts.cell_size) as nat,
        (grid.len() * opts.cell_size + 20) as nat,
    );
    assert(head + Seq::<char>::empty() =~= head);
}

/// No decimal digit is reserved.
pub proof fn lemma_decimal_plain(n: nat)
    ensures
        forall|i: int| 0 <= i < decimal(n).len() ==> !reserved(#[trigger] decimal(n)[i]),
    decreases n,
{
    if n >= 10 {
        lemma_decimal_plain(n / 10);
        assert forall|i: int| 0 <= i < decimal(n).len() implies !reserved(
            #[trigger] decimal(n)[i],
        ) by {
            if i < decimal(n / 10).len() {
                assert(decimal(n)[i] == decimal(n / 10)[i]);
            } else {
                assert(decimal(n)[i] == digit(n % 10));
            }
        }
    } else {
        assert(decimal(n)[0] == digit(n));
    }
}

fn number(n: usize) -> (s: String)
    ensures
        s@ == decimal(n as nat),
{
    let mut s = String::new();
    push_decimal(&mut s, n);
    assert(Seq::<char>::empty() + decimal(n as nat) =~= decimal(n as nat));
    s
}

fn tag(name: &str) -> (t: Tag)
    ensures
        t.text() == name@,
{
    let t = Tag { name: name.to_owned(), attributes: Vec::new() };
    assert(t.text() =~= name@);
    t
}

fn with(tag: Tag, key: &str, value: &str) -> (t: Tag)
    ensures
        t.text() == tag.text() + attribute(key@, value@),
{
    let mut t = tag;
    t.attributes.push(Attribute { key: key.to_owned(), value: value.to_owned() });
    assert(t.attributes@.drop_last() =~= tag.attributes@);
    assert(t.text() =~= tag.text() + attribute(key@, value@));
    t
}

fn canvas_tag(width: usize, height: usize) -> (m: Markup)
    ensures
        m.text() == canvas(width as nat, height as nat),
{
    let t = tag("svg");
    let t = with(t, "xmlns", "http://www.w3.org/2000/svg");
    let t = with(t, "width", number(width).as_str());
    let t = with(t, "height", number(height).as_str());
    Markup::Start(t)
}

fn square_tag(opts: &SVGOptions, x: usize, y: usize) -> (m: Markup)
    ensures
        m.text() == rectangle(
            x as nat,
            y as nat,
            opts.cell_size as nat,
            opts.stroke_width as nat,
            opts.stroke_color@,
            opts.fill_color@,
        ),
{
    let t = tag("rect");
    let t = with(t, "x", number(x).as_str());
    let t = with(t, "y", number(y).as_str());
    let t = with(t, "width", number(opts.cell_size).as_str());
    let t = with(t, "height", number(opts.cell_size).as_str());
    let t = with(t, "fill", opts.fill_color.as_str());
    let t = with(t, "stroke", opts.stroke_color.as_str());
    let t = with(t, "stroke-width", number(opts.stroke_width).as_str());
    Markup::Empty(t)
}

fn caption_tag(height: usize, fill_color: &str) -> (m: Markup)
    requires
        height >= 5,
    ensures
        m.text() == caption_open(height as nat, fill_color@),
{
    let t = tag("text");
    let t = with(t, "x", "50%");
    let t = with(t, "y", number(height - 5).as_str());
    let t = with(t, "font-family", "monospace");
    let t = with(t, "font-size", "12");
    let t = with(t, "fill", fill_color);
    let t = with(t, "dominant-baseline", "center");
    let t = with(t, "text-anchor", "middle");
    Markup::Start(t)
}

fn caption_text(generation: usize, delta: usize) -> (m: Markup)
    ensures
        m.text() == caption_line(generation as nat, delta as nat),
{
    let mut line = String::new();
    push_all(&mut line, "t = ");
    push_decimal(&mut line, generation);
    push_all(&mut line, ", Δ = ");
    push_decimal(&mut line, delta);
    proof {
        reveal_strlit("t = ");
        reveal_strlit(", Δ = ");
        lemma_decimal_plain(generation as nat);
        lemma_decimal_plain(delta as nat);
        assert(line@ =~= caption_line(generation as nat, delta as nat));
        lemma_escaped_plain(line@);
    }
    Markup::Text(line)
}

fn closing(name: &str) -> (m: Markup)
    ensures
        m.text() == end_tag(name@),
{
    Markup::End(name.to_owned())
}

/// Hands `markup` to the writer.
fn emit(w: &mut Writer<Vec<u8>>, markup: &Markup) -> (r: Result<(), RenderError>)
    ensures
        r is Ok,
        written(*final(w)) == written(*old(w)) + encode_utf8(markup.text()),
{
    match write_event(w, markup) {
        Ok(()) => Ok(()),
        Err(e) => Err(RenderError::Write(e)),
    }
}

/// The text that `bytes` encode.
pub fn finish(bytes: Vec<u8>) -> (r: Result<String, RenderError>)
    ensures
        match r {
            Ok(s) => valid_utf8(bytes@) && s@ == decode_utf8(bytes@),
            Err(e) => !valid_utf8(bytes@) && e is Encoding,
        },
{
    match string_from_utf8(bytes) {
        Ok(s) => Ok(s),
        Err(_) => Err(RenderError::Encoding),
    }
}

/// Whether the drawing of a board can be measured: the width of every row
/// and the height of the canvas fit in `usize`.
pub open spec fn measurable(grid: Seq<Seq<bool>>, cell_size: usize) -> bool {
    &&& forall|r: int| 0 <= r < grid.len() ==> (#[trigger] grid[r]).len() * cell_size <= usize::MAX
    &&& grid.len() * cell_size + 20 <= usize::MAX
}

/// Whether `svg` can draw `game` with `opts`.
pub fn drawable(game: &Game, opts: &SVGOptions) -> (b: bool)
    ensures
        b == measurable(game.board@, opts.cell_size),
{
    let size = opts.cell_size;
    match game.board.rows().checked_mul(size) {
        None => {
            return false;
        },
        Some(height) => {
            if height > usize::MAX - 20 {
                return false;
            }
        },
    }
    let mut row: usize = 0;
    while row < game.board.grid.len()
        invariant
            row <= game.board.grid.len(),
            size == opts.cell_size,
            game.board@.len() * size + 20 <= usize::MAX,
            forall|r: int| 0 <= r < row ==> (#[trigger] game.board@[r]).len() * size <= usize::MAX,
        decreases game.board.grid.len() - row,
    {
        if game.board.grid[row].len().checked_mul(size).is_none() {
            assert(game.board@[row as int].len() * size > usize::MAX);
            return false;
        }
        row += 1;
    }
    true
}

/// Draws `game` where `svg` can; gives nothing where it cannot.
pub fn try_svg(game: &Game, opts: SVGOptions) -> (r: Option<Result<String, RenderError>>)
    ensures
        if measurable(game.board@, opts.cell_size) {
            r matches Some(Ok(s)) && s@ == opts.document(
                game.board@,
                game.generation as nat,
                game.delta as nat,
            )
        } else {
            r is None
        },
{
    if drawable(game, &opts) {
        Some(svg(game, opts))
    } else {
        None
    }
}

/// Draws the board of `game` as an SVG document. Every board that can be
/// measured gets its drawing. The canvas is as wide as the first row.
pub fn svg(game: &Game, opts: SVGOptions) -> (r: Result<String, RenderError>)
    requires
        measurable(game.board@, opts.cell_size),
    ensures
        r matches Ok(s) && s@ == opts.document(
            game.board@,
            game.generation as nat,
            game.delta as nat,
        ),
{
    let board = &game.board;
    let ghost grid = board@;
    let size = opts.cell_size;
    assert(columns(grid) * size <= usize::MAX) by {
        if grid.len() > 0 {
            assert(grid[0].len() * size <= usize::MAX);
        }
    }
    let width = board.cols() * size;
    let height = board.rows() * size + 20;

    let mut w = new_writer();
    let m = canvas_tag(width, height);
    match emit(&mut w, &m) {
        Ok(()) => {},
        Err(e) => {
            return Err(e);
        },
    }
    let ghost head = canvas(width as nat, height as nat);
    assert(Seq::<u8>::empty() + encode_utf8(head) =~= encode_utf8(head));

    let mut row: usize = 0;
    while row < board.grid.len()
        invariant
            row <= board.grid.len(),
            grid == board@,
            size == opts.cell_size,
            measurable(grid, size),
            head == canvas(width as nat, height as nat),
            written(w) == encode_utf8(head + opts.squares(grid, row as int)),
        decreases board.grid.len() - row,
    {
        let cells = &board.grid[row];
        assert(cells@ == grid[row as int]);
        assert(row * size <= grid.len() * size) by (nonlinear_arith)
            requires
                row <= grid.len(),
        ;
        let y = row * size;
        let mut col: usize = 0;
        while col < cells.len()
            invariant
                col <= cells.len(),
                row < board.grid.len(),
                cells@ == grid[row as int],
                cells@.len() * size <= usize::MAX,
                size == opts.cell_size,
                y == row * size,
                written(w) == encode_utf8(
                    head + opts.squares(grid, row as int) + opts.row_squares(
                        cells@,
                        row as int,
                        col as int,
                    ),
                ),
            decreases cells.len() - col,
        {
            let ghost before = head + opts.squares(grid, row as int) + opts.row_squares(
                cells@,
                row as int,
                col as int,
            );
            if cells[col] {
                assert(col * size <= cells@.len() * size) by (nonlinear_arith)
                    requires
                        col <= cells@.len(),
                ;
                let m = square_tag(&opts, col * size, y);
                match emit(&mut w, &m) {
                    Ok(()) => {},
                    Err(e) => {
                        return Err(e);
                    },
                }
                proof {
                    lemma_encode_utf8_concat(before, m.text());
                }
            } else {
                assert(before + Seq::<char>::empty() =~= before);
            }
            col += 1;
            assert(head + opts.squares(grid, row as int) + opts.row_squares(
                cells@,
                row as int,
                col as int,
            ) =~= before + if cells@[col - 1] {
                opts.square(row as int, col - 1)
            } else {
                Seq::empty()
            });
        }
        row += 1;
        assert(head + opts.squares(grid, row as int) =~= head + opts.squares(grid, row - 1)
            + opts.row_squares(cells@, row - 1, cells@.len() as int));
    }

    let ghost body = head + opts.squares(grid, grid.len() as int);
    let m = caption_tag(height, opts.fill_color.as_str());
    match emit(&mut w, &m) {
        Ok(()) => {},
        Err(e) => {
            return Err(e);
        },
    }
    proof {
        lemma_encode_utf8_concat(body, m.text());
    }
    let ghost body = body + m.text();
    let m = caption_text(game.generation, game.delta);
    match emit(&mut w, &m) {
        Ok(()) => {},
        Err(e) => {
            return Err(e);
        },
    }
    proof {
        lemma_encode_utf8_concat(body, m.text());
    }
    let ghost body = body + m.text();
    let m = closing("text");
    match emit(&mut w, &m) {
        Ok(()) => {},
        Err(e) => {
            return Err(e);
        },
    }
    proof {
        lemma_encode_utf8_concat(body, m.text());
    }
    let ghost body = body + m.text();
    let m = closing("svg");
    match emit(&mut w, &m) {
        Ok(()) => {},
        Err(e) => {
            return Err(e);
        },
    }
    proof {
        lemma_encode_utf8_concat(body, m.text());
    }
    let ghost body = body + m.text();
    assert(body =~= opts.document(grid, game.generation as nat, game.delta as nat));
    proof {
        encode_utf8_valid_utf8(body);
        encode_utf8_decode_utf8(body);
    }
    finish(into_bytes(w))
}

} // verus!
