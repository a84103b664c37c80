//! The seed: a board written as rows of symbols between separators.

use crate::game::BoardError;
use crate::game::grid_view;
use crate::game::rectangular;
use vstd::prelude::*;

verus! {

/// The characters with Unicode's `White_Space` property.
pub open spec fn is_white_space(c: char) -> bool {
    let u = c as u32;
    ||| 0x09 <= u <= 0x0D
    ||| u == 0x20
    ||| u == 0x85
    ||| u == 0xA0
    ||| u == 0x1680
    ||| 0x2000 <= u <= 0x200A
    ||| u == 0x2028
    ||| u == 0x2029
    ||| u == 0x202F
    ||| u == 0x205F
    ||| u == 0x3000
}

/// `s` without the white space it begins with.
pub open spec fn trim_start(s: Seq<char>) -> Seq<char>
    decreases s.len(),
{
    if s.len() > 0 && is_white_space(s[0]) {
        trim_start(s.drop_first())
    } else {
        s
    }
}

/// `s` without the white space it ends with.
pub open spec fn trim_end(s: Seq<char>) -> Seq<char>
    decreases s.len(),
{
    if s.len() > 0 && is_white_space(s.last()) {
        trim_end(s.drop_last())
    } else {
        s
    }
}

/// `s` without the white space at either end.
pub open spec fn trimmed(s: Seq<char>) -> Seq<char> {
    trim_end(trim_start(s))
}

/// The pieces of `s` between occurrences of `sep`, in order. There is
/// always one piece more than there are separators, so the empty text has
/// one empty piece.
pub open spec fn split(s: Seq<char>, sep: char) -> Seq<Seq<char>>
    decreases s.len(),
{
    if s.len() == 0 {
        seq![Seq::empty()]
    } else {
        let before = split(s.drop_last(), sep);
        if s.last() == sep {
            before.push(Seq::empty())
        } else {
            before.drop_last().push(before.last().push(s.last()))
        }
    }
}

/// `rows` with `sep` between each two neighbours, and none at the end.
pub open spec fn join(rows: Seq<Seq<char>>, sep: char) -> Seq<char>
    decreases rows.len(),
{
    if rows.len() == 0 {
        Seq::empty()
    } else if rows.len() == 1 {
        rows[0]
    } else {
        join(rows.drop_last(), sep).push(sep) + rows.last()
    }
}

/// The length of the longest of `rows`; 0 where there is none.
pub open spec fn width(rows: Seq<Seq<char>>) -> nat
    decreases rows.len(),
{
    if rows.len() == 0 {
        0
    } else {
        let before = width(rows.drop_last());
        if rows.last().len() > before {
            rows.last().len()
        } else {
            before
        }
    }
}

/// `c` has no meaning in a seed with these symbols.
pub open spec fn stray(c: char, alive: char, dead: char, sep: char) -> bool {
    c != alive && c != dead && c != sep
}

/// The first stray character of `s`, if it has one.
pub open spec fn first_stray(s: Seq<char>, alive: char, dead: char, sep: char) -> Option<char>
    decreases s.len(),
{
    if s.len() == 0 {
        None
    } else if stray(s[0], alive, dead, sep) {
        Some(s[0])
    } else {
        first_stray(s.drop_first(), alive, dead, sep)
    }
}

/// The grid that `rows` describe: as many rows, each as wide as the longest.
/// A cell is alive where its row has the alive symbol at its column; what
/// lies beyond the end of a short row is dead.
pub open spec fn cells(rows: Seq<Seq<char>>, alive: char) -> Seq<Seq<bool>> {
    Seq::new(
        rows.len(),
        |r: int| Seq::new(width(rows), |c: int| c < rows[r].len() && rows[r][c] == alive),
    )
}

/// What a seed means. The separator must differ from both symbols. The seed
/// is trimmed and split at the separators; any character of a piece that is
/// neither symbol makes the whole seed invalid, and the first such character
/// is reported.
pub open spec fn decode(seed: Seq<char>, alive: char, dead: char, sep: char) -> Result<
    Seq<Seq<bool>>,
    BoardError,
> {
    if sep == alive || sep == dead {
        Err(BoardError::InvalidSeparator(sep))
    } else {
        let text = trimmed(seed);
        match first_stray(text, alive, dead, sep) {
            Some(c) => Err(BoardError::InvalidSeedCharacter(c, alive, dead)),
            None => Ok(cells(split(text, sep), alive)),
        }
    }
}

/// One symbol for each cell of `row`.
pub open spec fn symbols(row: Seq<bool>, alive: char, dead: char) -> Seq<char> {
    Seq::new(
        row.len(),
        |c: int|
            if row[c] {
                alive
            } else {
                dead
            },
    )
}

/// The text of a grid: the symbols of each row, the rows joined by `sep`.
pub open spec fn encode(grid: Seq<Seq<bool>>, alive: char, dead: char, sep: char) -> Seq<char> {
    join(Seq::new(grid.len(), |r: int| symbols(grid[r], alive, dead)), sep)
}

/// Which characters of `row` are the alive symbol.
pub open spec fn marks_row(row: Seq<char>, alive: char) -> Seq<bool> {
    Seq::new(row.len(), |c: int| row[c] == alive)
}

/// Which characters of each of `rows` are the alive symbol.
pub open spec fn marks(rows: Seq<Seq<char>>, alive: char) -> Seq<Seq<bool>> {
    Seq::new(rows.len(), |r: int| marks_row(rows[r], alive))
}

/// `grid` with each row cut or filled up with dead cells to `width`.
pub open spec fn padded(grid: Seq<Seq<bool>>, width: nat) -> Seq<Seq<bool>> {
    Seq::new(grid.len(), |r: int| Seq::new(width, |c: int| c < grid[r].len() && grid[r][c]))
}

/// The first stray character of a text is that of its first part, or else
/// that of the rest.
pub proof fn lemma_first_stray_concat(
    s: Seq<char>,
    t: Seq<char>,
    alive: char,
    dead: char,
    sep: char,
)
    ensures
        first_stray(s + t, alive, dead, sep) == match first_stray(s, alive, dead, sep) {
            Some(c) => Some(c),
            None => first_stray(t, alive, dead, sep),
        },
    decreases s.len(),
{
    if s.len() == 0 {
        assert(s + t =~= t);
    } else {
        lemma_first_stray_concat(s.drop_first(), t, alive, dead, sep);
        assert((s + t).drop_first() =~= s.drop_first() + t);
    }
}

/// A text always splits into at least one piece.
pub proof fn lemma_split_len(s: Seq<char>, sep: char)
    ensures
        split(s, sep).len() >= 1,
    decreases s.len(),
{
    if s.len() > 0 {
        lemma_split_len(s.drop_last(), sep);
    }
}

/// Whether `c` is white space.
pub fn white_space(c: char) -> (b: bool)
    ensures
        b == is_white_space(c),
{
    let u: u32 = c as u32;
    (0x09 <= u && u <= 0x0D) || u == 0x20 || u == 0x85 || u == 0xA0 || u == 0x1680 || (0x2000 <= u
        && u <= 0x200A) || u == 0x2028 || u == 0x2029 || u == 0x202F || u == 0x205F || u == 0x3000
}

/// Where the trimmed text begins and ends in `text`.
pub fn trim_bounds(text: &Vec<char>) -> (b: (usize, usize))
    ensures
        b.0 <= b.1 <= text.len(),
        text@.subrange(b.0 as int, b.1 as int) == trimmed(text@),
{
    let n = text.len();
    let mut lo: usize = 0;
    assert(text@.subrange(0, n as int) =~= text@);
    while lo < n && white_space(text[lo])
        invariant
            n == text.len(),
            lo <= n,
            trim_start(text@) == trim_start(text@.subrange(lo as int, n as int)),
        decreases n - lo,
    {
        assert(text@.subrange(lo as int, n as int).drop_first() =~= text@.subrange(
            lo + 1,
            n as int,
        ));
        lo += 1;
    }
    let mut hi: usize = n;
    while hi > lo && white_space(text[hi - 1])
        invariant
            n == text.len(),
            lo <= hi <= n,
            trim_end(text@.subrange(lo as int, n as int)) == trim_end(
                text@.subrange(lo as int, hi as int),
            ),
        decreases hi - lo,
    {
        assert(text@.subrange(lo as int, hi as int).drop_last() =~= text@.subrange(
            lo as int,
            hi - 1,
        ));
        hi -= 1;
    }
    (lo, hi)
}

/// Reads the characters of `text` from `lo` up to `hi` as rows of symbols.
/// Gives the rows as they stand, not yet of one width, and the width of the
/// widest.
pub fn parse(text: &Vec<char>, lo: usize, hi: usize, alive: char, dead: char, sep: char) -> (r:
    Result<(Vec<Vec<bool>>, usize), BoardError>)
    requires
        lo <= hi <= text.len(),
        sep != alive,
        sep != dead,
    ensures
        match first_stray(text@.subrange(lo as int, hi as int), alive, dead, sep) {
            Some(c) => r == Err::<(Vec<Vec<bool>>, usize), BoardError>(
                BoardError::InvalidSeedCharacter(c, alive, dead),
            ),
            None => r matches Ok(found) && grid_view(found.0@) == marks(
                split(text@.subrange(lo as int, hi as int), sep),
                alive,
            ) && found.1 == width(split(text@.subrange(lo as int, hi as int), sep)),
        },
{
    let mut rows: Vec<Vec<bool>> = Vec::new();
    let mut current: Vec<bool> = Vec::new();
    let mut widest: usize = 0;
    let mut i: usize = lo;
    assert(grid_view(rows@) =~~= marks(
        split(text@.subrange(lo as int, lo as int), sep).drop_last(),
        alive,
    ));
    assert(current@ =~= marks_row(split(text@.subrange(lo as int, lo as int), sep).last(), alive));
    while i < hi
        invariant
            lo <= i <= hi <= text.len(),
            first_stray(text@.subrange(lo as int, i as int), alive, dead, sep) is None,
            split(text@.subrange(lo as int, i as int), sep).len() == rows.len() + 1,
            grid_view(rows@) == marks(
                split(text@.subrange(lo as int, i as int), sep).drop_last(),
                alive,
            ),
            current@ == marks_row(split(text@.subrange(lo as int, i as int), sep).last(), alive),
            widest == width(split(text@.subrange(lo as int, i as int), sep).drop_last()),
        decreases hi - i,
    {
        let c = text[i];
        let ghost before = text@.subrange(lo as int, i as int);
        let ghost pieces = split(before, sep);
        proof {
            assert(text@.subrange(lo as int, i + 1) =~= before.push(c));
            assert(before.push(c) =~= before + seq![c]);
            assert(before.push(c).drop_last() =~= before);
            lemma_first_stray_concat(before, seq![c], alive, dead, sep);
            assert(seq![c].drop_first() =~= Seq::<char>::empty());
            assert(first_stray(seq![c].drop_first(), alive, dead, sep) is None);
        }
        let ghost earlier = rows@;
        if c == sep {
            if current.len() > widest {
                widest = current.len();
            }
            rows.push(current);
            current = Vec::new();
            proof {
                let after = split(before.push(c), sep);
                assert(after == pieces.push(Seq::empty()));
                assert(after.drop_last() =~= pieces);
                assert forall|k: int| 0 <= k < rows@.len() implies grid_view(rows@)[k] == marks(
                    pieces,
                    alive,
                )[k] by {
                    if k < earlier.len() {
                        assert(grid_view(earlier)[k] == marks(pieces.drop_last(), alive)[k]);
                    }
                }
                assert(grid_view(rows@) =~= marks(pieces, alive));
                assert(current@ =~= marks_row(after.last(), alive));
            }
        } else if c == alive {
            current.push(true);
            proof {
                let after = split(before.push(c), sep);
                assert(after.drop_last() =~= pieces.drop_last());
                assert(current@ =~= marks_row(after.last(), alive));
            }
        } else if c == dead {
            current.push(false);
            proof {
                let after = split(before.push(c), sep);
                assert(after.drop_last() =~= pieces.drop_last());
                assert(current@ =~= marks_row(after.last(), alive));
            }
        } else {
            proof {
                let rest = text@.subrange(i + 1, hi as int);
                assert(text@.subrange(lo as int, hi as int) =~= before.push(c) + rest);
                lemma_first_stray_concat(before.push(c), rest, alive, dead, sep);
            }
            return Err(BoardError::InvalidSeedCharacter(c, alive, dead));
        }
        i += 1;
    }
    let ghost pieces = split(text@.subrange(lo as int, hi as int), sep);
    let ghost earlier = rows@;
    if current.len() > widest {
        widest = current.len();
    }
    rows.push(current);
    proof {
        assert(pieces.drop_last().push(pieces.last()) =~= pieces);
        assert forall|k: int| 0 <= k < rows@.len() implies grid_view(rows@)[k] == marks(
            pieces,
            alive,
        )[k] by {
            if k < earlier.len() {
                assert(grid_view(earlier)[k] == marks(pieces.drop_last(), alive)[k]);
            }
        }
        assert(grid_view(rows@) =~= marks(pieces, alive));
    }
    Ok((rows, widest))
}

/// Copies `rows`, each cut or filled up with dead cells to `width`.
pub fn pad(rows: &Vec<Vec<bool>>, width: usize) -> (grid: Vec<Vec<bool>>)
    ensures
        grid_view(grid@) == padded(grid_view(rows@), width as nat),
{
    let mut grid: Vec<Vec<bool>> = Vec::new();
    let mut r: usize = 0;
    while r < rows.len()
        invariant
            r <= rows.len(),
            grid.len() == r,
            forall|k: int| 0 <= k < r ==> (#[trigger] grid@[k])@ == padded(
                grid_view(rows@),
                width as nat,
            )[k],
        decreases rows.len() - r,
    {
        let source = &rows[r];
        let mut row: Vec<bool> = Vec::new();
        let mut c: usize = 0;
        while c < width
            invariant
                c <= width,
                row.len() == c,
                r < rows.len(),
                source@ == rows@[r as int]@,
                forall|k: int| 0 <= k < c ==> #[trigger] row@[k] == (k < source@.len()
                    && source@[k]),
            decreases width - c,
        {
            let cell = c < source.len() && source[c];
            row.push(cell);
            c += 1;
        }
        assert(row@ =~= padded(grid_view(rows@), width as nat)[r as int]);
        grid.push(row);
        r += 1;
    }
    assert(grid_view(grid@) =~~= padded(grid_view(rows@), width as nat));
    grid
}

/// Reading rows and then widening them gives the grid of the rows.
pub proof fn lemma_padded_marks(rows: Seq<Seq<char>>, alive: char)
    ensures
        padded(marks(rows, alive), width(rows)) == cells(rows, alive),
{
    assert(padded(marks(rows, alive), width(rows)) =~~= cells(rows, alive));
}

/// `c` does not occur in `s`.
pub open spec fn free_of(s: Seq<char>, c: char) -> bool {
    forall|i: int| 0 <= i < s.len() ==> #[trigger] s[i] != c
}

/// No character of `s` is stray.
pub open spec fn clean(s: Seq<char>, alive: char, dead: char, sep: char) -> bool {
    forall|i: int| 0 <= i < s.len() ==> !stray(#[trigger] s[i], alive, dead, sep)
}

/// Text that does not hold the separator, put behind any text, lengthens
/// the last piece of that text and makes no new one.
pub proof fn lemma_split_append(s: Seq<char>, t: Seq<char>, sep: char)
    requires
        free_of(t, sep),
    ensures
        split(s + t, sep) == split(s, sep).drop_last().push(split(s, sep).last() + t),
    decreases t.len(),
{
    lemma_split_len(s, sep);
    let pieces = split(s, sep);
    if t.len() == 0 {
        assert(s + t =~= s);
        assert(pieces.last() + t =~= pieces.last());
        assert(pieces.drop_last().push(pieces.last()) =~= pieces);
    } else {
        let shorter = t.drop_last();
        assert(free_of(shorter, sep)) by {
            assert forall|i: int| 0 <= i < shorter.len() implies #[trigger] shorter[i] != sep by {
                assert(shorter[i] == t[i]);
            }
        }
        lemma_split_append(s, shorter, sep);
        assert((s + t).drop_last() =~= s + shorter);
        assert((s + t).last() == t.last());
        assert(t.last() == t[t.len() - 1]);
        let before = split(s + shorter, sep);
        assert(before.drop_last() =~= pieces.drop_last());
        assert(before.last().push(t.last()) =~= pieces.last() + t);
    }
}

/// Splitting what was joined gives the rows back, where there is a row and
/// no row holds the separator.
pub proof fn lemma_split_join(rows: Seq<Seq<char>>, sep: char)
    requires
        rows.len() >= 1,
        forall|r: int| 0 <= r < rows.len() ==> free_of(#[trigger] rows[r], sep),
    ensures
        split(join(rows, sep), sep) == rows,
    decreases rows.len(),
{
    if rows.len() == 1 {
        let none = Seq::<char>::empty();
        lemma_split_append(none, rows[0], sep);
        assert(none + rows[0] =~= rows[0]);
        assert(split(none, sep).drop_last().push(split(none, sep).last() + rows[0]) =~= rows);
    } else {
        let init = rows.drop_last();
        assert forall|r: int| 0 <= r < init.len() implies free_of(#[trigger] init[r], sep) by {
            assert(init[r] == rows[r]);
        }
        lemma_split_join(init, sep);
        let head = join(init, sep).push(sep);
        assert(head.drop_last() =~= join(init, sep));
        assert(split(head, sep) == init.push(Seq::empty()));
        lemma_split_append(head, rows.last(), sep);
        assert(Seq::<char>::empty() + rows.last() =~= rows.last());
        assert(init.push(Seq::empty()).drop_last().push(rows.last()) =~= rows);
    }
}

/// Joining the pieces of a text gives the text back, and no piece holds the
/// separator.
pub proof fn lemma_join_split(s: Seq<char>, sep: char)
    ensures
        join(split(s, sep), sep) == s,
        forall|r: int| 0 <= r < split(s, sep).len() ==> free_of(#[trigger] split(s, sep)[r], sep),
    decreases s.len(),
{
    let pieces = split(s, sep);
    if s.len() == 0 {
        assert(pieces[0] =~= s);
    } else {
        let shorter = s.drop_last();
        let before = split(shorter, sep);
        lemma_join_split(shorter, sep);
        lemma_split_len(shorter, sep);
        assert(shorter.push(s.last()) =~= s);
        if s.last() == sep {
            assert(pieces.drop_last() =~= before);
            assert(join(before, sep).push(sep) + Seq::<char>::empty() =~= shorter.push(sep));
            assert forall|r: int| 0 <= r < pieces.len() implies free_of(#[trigger] pieces[r], sep) by {
                if r < before.len() {
                    assert(pieces[r] == before[r]);
                }
            }
        } else {
            let grown = before.last().push(s.last());
            assert(pieces.drop_last() =~= before.drop_last());
            assert(pieces.last() == grown);
            assert forall|r: int| 0 <= r < pieces.len() implies free_of(#[trigger] pieces[r], sep) by {
                if r < before.len() - 1 {
                    assert(pieces[r] == before[r]);
                } else {
                    assert(free_of(before[r], sep));
                    assert forall|i: int| 0 <= i < grown.len() implies #[trigger] grown[i] != sep by {
                        if i < before[r].len() {
                            assert(grown[i] == before[r][i]);
                        }
                    }
                }
            }
            if before.len() == 1 {
                assert(before[0] == shorter);
                assert(pieces[0] =~= s);
            } else {
                let head = join(before.drop_last(), sep).push(sep);
                assert(join(before, sep) == head + before.last());
                assert(head + grown =~= (head + before.last()).push(s.last()));
            }
        }
    }
}

/// No row is longer than the width, and where there is a row, one is as
/// long.
pub proof fn lemma_width_bounds(rows: Seq<Seq<char>>)
    ensures
        forall|r: int| 0 <= r < rows.len() ==> (#[trigger] rows[r]).len() <= width(rows),
        rows.len() > 0 ==> exists|r: int| 0 <= r < rows.len() && (#[trigger] rows[r]).len() == width(
            rows,
        ),
    decreases rows.len(),
{
    if rows.len() > 0 {
        let init = rows.drop_last();
        lemma_width_bounds(init);
        assert forall|r: int| 0 <= r < rows.len() implies (#[trigger] rows[r]).len() <= width(
            rows,
        ) by {
            if r < init.len() {
                assert(rows[r] == init[r]);
            }
        }
        if rows.last().len() > width(init) || init.len() == 0 {
            assert(rows[rows.len() - 1].len() == width(rows));
        } else {
            let r = choose|r: int| 0 <= r < init.len() && (#[trigger] init[r]).len() == width(init);
            assert(rows[r] == init[r]);
        }
    }
}

/// Clean text has no first stray character.
pub proof fn lemma_clean(s: Seq<char>, alive: char, dead: char, sep: char)
    requires
        clean(s, alive, dead, sep),
    ensures
        first_stray(s, alive, dead, sep) is None,
    decreases s.len(),
{
    if s.len() > 0 {
        let rest = s.drop_first();
        assert forall|i: int| 0 <= i < rest.len() implies !stray(
            #[trigger] rest[i],
            alive,
            dead,
            sep,
        ) by {
            assert(rest[i] == s[i + 1]);
        }
        lemma_clean(rest, alive, dead, sep);
    }
}

/// Joining clean rows gives clean text.
pub proof fn lemma_join_clean(rows: Seq<Seq<char>>, alive: char, dead: char, sep: char)
    requires
        forall|r: int| 0 <= r < rows.len() ==> clean(#[trigger] rows[r], alive, dead, sep),
    ensures
        clean(join(rows, sep), alive, dead, sep),
    decreases rows.len(),
{
    if rows.len() == 1 {
        assert(clean(rows[0], alive, dead, sep));
    } else if rows.len() > 1 {
        let init = rows.drop_last();
        assert forall|r: int| 0 <= r < init.len() implies clean(
            #[trigger] init[r],
            alive,
            dead,
            sep,
        ) by {
            assert(init[r] == rows[r]);
        }
        lemma_join_clean(init, alive, dead, sep);
        let head = join(init, sep);
        let last = rows.last();
        assert(clean(last, alive, dead, sep));
        let all = head.push(sep) + last;
        assert forall|i: int| 0 <= i < all.len() implies !stray(
            #[trigger] all[i],
            alive,
            dead,
            sep,
        ) by {
            if i < head.len() {
                assert(all[i] == head[i]);
            } else if i == head.len() {
                assert(all[i] == sep);
            } else {
                assert(all[i] == last[i - head.len() - 1]);
            }
        }
    }
}

/// Rows of one length are as wide as that length.
pub proof fn lemma_width_even(rows: Seq<Seq<char>>, n: nat)
    requires
        rows.len() >= 1,
        forall|r: int| 0 <= r < rows.len() ==> (#[trigger] rows[r]).len() == n,
    ensures
        width(rows) == n,
    decreases rows.len(),
{
    if rows.len() > 1 {
        let init = rows.drop_last();
        assert forall|r: int| 0 <= r < init.len() implies (#[trigger] init[r]).len() == n by {
            assert(init[r] == rows[r]);
        }
        lemma_width_even(init, n);
    } else {
        assert(width(rows.drop_last()) == 0);
    }
    assert(rows.last() == rows[rows.len() - 1]);
}

/// What `trim_start` leaves does not begin with white space.
pub proof fn lemma_trim_start_begins(s: Seq<char>)
    ensures
        trim_start(s).len() == 0 || !is_white_space(trim_start(s)[0]),
    decreases s.len(),
{
    if s.len() > 0 && is_white_space(s[0]) {
        lemma_trim_start_begins(s.drop_first());
    }
}

/// What `trim_end` leaves is the beginning of the text, and does not end
/// with white space.
pub proof fn lemma_trim_end_ends(s: Seq<char>)
    ensures
        trim_end(s).len() <= s.len(),
        trim_end(s) == s.take(trim_end(s).len() as int),
        trim_end(s).len() == 0 || !is_white_space(trim_end(s).last()),
    decreases s.len(),
{
    if s.len() > 0 && is_white_space(s.last()) {
        lemma_trim_end_ends(s.drop_last());
        assert(s.drop_last().take(trim_end(s).len() as int) =~= s.take(trim_end(s).len() as int));
    } else {
        assert(s.take(s.len() as int) =~= s);
    }
}

/// Trimmed text neither begins nor ends with white space, so trimming it
/// again changes nothing.
pub proof fn lemma_trimmed_ends(s: Seq<char>)
    ensures
        trimmed(s).len() == 0 || (!is_white_space(trimmed(s)[0]) && !is_white_space(
            trimmed(s).last(),
        )),
        trimmed(trimmed(s)) == trimmed(s),
{
    lemma_trim_start_begins(s);
    lemma_trim_end_ends(trim_start(s));
    lemma_trimmed_same(trimmed(s));
}

/// White space around a seed does not matter: the seed reads as its trimmed
/// text does.
pub proof fn lemma_decode_trimmed(seed: Seq<char>, alive: char, dead: char, sep: char)
    ensures
        decode(trimmed(seed), alive, dead, sep) == decode(seed, alive, dead, sep),
{
    lemma_trimmed_ends(seed);
}

/// Text that neither begins nor ends with white space is left as it is by
/// trimming.
pub proof fn lemma_trimmed_same(s: Seq<char>)
    requires
        s.len() == 0 || (!is_white_space(s[0]) && !is_white_space(s.last())),
    ensures
        trimmed(s) == s,
{
}

/// A seed whose trimmed text is what a grid is written as reads as that
/// grid. This holds of every grid with at least one row whose rows are of
/// one length, and of any three different symbols.
pub proof fn lemma_decode_written(
    seed: Seq<char>,
    grid: Seq<Seq<bool>>,
    alive: char,
    dead: char,
    sep: char,
)
    requires
        rectangular(grid),
        grid.len() >= 1,
        alive != dead,
        sep != alive,
        sep != dead,
        trimmed(seed) == encode(grid, alive, dead, sep),
    ensures
        decode(seed, alive, dead, sep) == Ok::<Seq<Seq<bool>>, BoardError>(grid),
{
    let lines = Seq::new(grid.len(), |r: int| symbols(grid[r], alive, dead));
    let text = encode(grid, alive, dead, sep);
    assert(text == join(lines, sep));
    assert forall|r: int| 0 <= r < lines.len() implies free_of(#[trigger] lines[r], sep) && clean(
        lines[r],
        alive,
        dead,
        sep,
    ) by {}
    lemma_split_join(lines, sep);
    lemma_join_clean(lines, alive, dead, sep);
    lemma_clean(text, alive, dead, sep);
    assert forall|r: int| 0 <= r < lines.len() implies (#[trigger] lines[r]).len()
        == grid[0].len() by {
        assert(grid[r].len() == grid[0].len());
    }
    lemma_width_even(lines, grid[0].len());
    assert(cells(lines, alive) =~~= grid) by {
        assert forall|r: int| 0 <= r < grid.len() implies #[trigger] cells(lines, alive)[r]
            =~= grid[r] by {
            assert(grid[r].len() == grid[0].len());
            assert(lines[r] == symbols(grid[r], alive, dead));
        }
    }
}

/// Reading back what was written gives the grid that was written. This
/// holds of every grid with at least one row whose rows are of one length,
/// and of any three different symbols, where trimming leaves the written
/// text as it is.
pub proof fn lemma_decode_encode(grid: Seq<Seq<bool>>, alive: char, dead: char, sep: char)
    requires
        rectangular(grid),
        grid.len() >= 1,
        alive != dead,
        sep != alive,
        sep != dead,
        trimmed(encode(grid, alive, dead, sep)) == encode(grid, alive, dead, sep),
    ensures
        decode(encode(grid, alive, dead, sep), alive, dead, sep) == Ok::<
            Seq<Seq<bool>>,
            BoardError,
        >(grid),
{
    lemma_decode_written(encode(grid, alive, dead, sep), grid, alive, dead, sep);
}

/// Reading back what was written gives the grid that was written, for
/// every grid with at least one cell whose rows are of one length, where
/// the three symbols differ and neither cell symbol is white space.
pub proof fn lemma_decode_encode_visible(grid: Seq<Seq<bool>>, alive: char, dead: char, sep: char)
    requires
        rectangular(grid),
        grid.len() >= 1,
        grid[0].len() >= 1,
        alive != dead,
        sep != alive,
        sep != dead,
        !is_white_space(alive),
        !is_white_space(dead),
    ensures
        decode(encode(grid, alive, dead, sep), alive, dead, sep) == Ok::<
            Seq<Seq<bool>>,
            BoardError,
        >(grid),
{
    let lines = Seq::new(grid.len(), |r: int| symbols(grid[r], alive, dead));
    assert forall|r: int| 0 <= r < lines.len() implies (#[trigger] lines[r]).len() >= 1 && (
    lines[r][0] == alive || lines[r][0] == dead) && (lines[r].last() == alive || lines[r].last()
        == dead) by {
        assert(grid[r].len() == grid[0].len());
    }
    lemma_join_ends(lines, sep, alive, dead);
    lemma_trimmed_same(encode(grid, alive, dead, sep));
    lemma_decode_encode(grid, alive, dead, sep);
}

/// Joined rows that each begin and end with a symbol begin and end with a
/// symbol.
pub proof fn lemma_join_ends(rows: Seq<Seq<char>>, sep: char, alive: char, dead: char)
    requires
        rows.len() >= 1,
        forall|r: int|
            0 <= r < rows.len() ==> (#[trigger] rows[r]).len() >= 1 && (rows[r][0] == alive
                || rows[r][0] == dead) && (rows[r].last() == alive || rows[r].last() == dead),
    ensures
        join(rows, sep).len() >= 1,
        join(rows, sep)[0] == alive || join(rows, sep)[0] == dead,
        join(rows, sep).last() == alive || join(rows, sep).last() == dead,
    decreases rows.len(),
{
    if rows.len() > 1 {
        let init = rows.drop_last();
        assert forall|r: int| 0 <= r < init.len() implies (#[trigger] init[r]).len() >= 1 && (
        init[r][0] == alive || init[r][0] == dead) && (init[r].last() == alive || init[r].last()
            == dead) by {
            assert(init[r] == rows[r]);
        }
        lemma_join_ends(init, sep, alive, dead);
        let head = join(init, sep);
        let all = head.push(sep) + rows.last();
        assert(rows.last() == rows[rows.len() - 1]);
        assert(all[0] == head[0]);
        assert(all.last() == rows.last().last());
    } else {
        assert(rows[0].len() >= 1);
    }
}

} // verus!
