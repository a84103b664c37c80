//! What a request asks for: which game, and in which form.

use crate::game::Game;
use crate::render::RenderError;
use crate::render::SVGOptions;
use crate::render::TextOptions;
use crate::render::measurable;
use crate::render::text;
use crate::render::try_svg;
use crate::seed::encode;
use crate::seed::split;
use crate::text::to_chars;
use vstd::prelude::*;

verus! {

/// How a game is shown.
#[derive(Debug, Clone, Copy, PartialEq, Eq, Structural)]
pub enum Format {
    Text,
    Svg,
}

/// What a request names: a game, and the form in which it is wanted.
pub struct Target {
    pub name: String,
    pub format: Format,
}

/// Whether `char::is_alphanumeric` holds of `c`.
pub uninterp spec fn alphanumeric(c: char) -> bool;

/// `char::is_alphanumeric`.
#[verifier::external_body]
pub(crate) fn is_alphanumeric(c: char) -> (b: bool)
    ensures
        b == alphanumeric(c),
{
    c.is_alphanumeric()
}

/// The names that a game may have: letters, digits and hyphens only.
pub open spec fn name_ok(name: Seq<char>) -> bool {
    forall|i: int| 0 <= i < name.len() ==> alphanumeric(#[trigger] name[i]) || name[i] == '-'
}

/// What follows the last dot of `path`; all of `path` where it has no dot.
pub open spec fn extension(path: Seq<char>) -> Seq<char> {
    split(path, '.').last()
}

/// Whether `s` ends with `suffix`.
pub open spec fn ends_with(s: Seq<char>, suffix: Seq<char>) -> bool {
    suffix.len() <= s.len() && s.subrange(s.len() - suffix.len(), s.len() as int) == suffix
}

/// `s` without `suffix` at its end, as often as it stands there.
pub open spec fn without_suffix(s: Seq<char>, suffix: Seq<char>) -> Seq<char>
    decreases s.len(),
{
    if suffix.len() > 0 && ends_with(s, suffix) {
        without_suffix(s.subrange(0, s.len() - suffix.len()), suffix)
    } else {
        s
    }
}

/// The name of the game in `path`: `path` without its extension and the dot
/// before it, as often as they stand at its end.
pub open spec fn stem(path: Seq<char>) -> Seq<char> {
    without_suffix(path, seq!['.'] + extension(path))
}

/// The form that `path` asks for: SVG where its extension is `svg`, text
/// for any other.
pub open spec fn format_of(path: Seq<char>) -> Format {
    if extension(path) == seq!['s', 'v', 'g'] {
        Format::Svg
    } else {
        Format::Text
    }
}

impl Format {
    /// The media type of a response in this form.
    pub fn content_type(&self) -> (s: &'static str)
        ensures
            s@ == match self {
                Format::Svg => "image/svg+xml"@,
                Format::Text => "text/plain; charset=utf-8"@,
            },
    {
        match self {
            Format::Svg => "image/svg+xml",
            Format::Text => "text/plain; charset=utf-8",
        }
    }
}

/// Shows `game` in the form asked for. Text can always be written; a
/// drawing is made where `svg` can draw the game, and nothing is given
/// where it cannot.
pub fn show(game: &Game, format: Format, symbols: TextOptions, style: SVGOptions) -> (r: Option<
    Result<String, RenderError>,
>)
    ensures
        format == Format::Text ==> (r matches Some(Ok(s)) && s@ == encode(
            game.board@,
            symbols.alive,
            symbols.dead,
            symbols.separator,
        )),
        format == Format::Svg ==> if measurable(game.board@, style.cell_size) {
            r matches Some(Ok(s)) && s@ == style.document(
                game.board@,
                game.generation as nat,
                game.delta as nat,
            )
        } else {
            r is None
        },
{
    match format {
        Format::Svg => try_svg(game, style),
        Format::Text => Some(Ok(text(game, symbols))),
    }
}

/// Whether a game may be created under `name`.
pub fn valid_name(name: &str) -> (b: bool)
    ensures
        b == name_ok(name@),
{
    let chars = to_chars(name);
    let mut i: usize = 0;
    while i < chars.len()
        invariant
            i <= chars.len(),
            chars@ == name@,
            name_ok(name@.take(i as int)),
        decreases chars.len() - i,
    {
        let c = chars[i];
        if !(is_alphanumeric(c) || c == '-') {
            assert(!(alphanumeric(name@[i as int]) || name@[i as int] == '-'));
            return false;
        }
        assert forall|k: int| 0 <= k < i + 1 implies alphanumeric(
            #[trigger] name@.take(i + 1)[k],
        ) || name@.take(i + 1)[k] == '-' by {
            if k < i {
                assert(name@.take(i as int)[k] == name@[k]);
            }
        }
        i += 1;
    }
    assert(name@.take(i as int) =~= name@);
    true
}

/// Where the extension of `chars` begins: behind the last dot, or at 0
/// where there is no dot.
pub fn extension_start(chars: &Vec<char>) -> (k: usize)
    ensures
        k <= chars.len(),
        chars@.subrange(k as int, chars.len() as int) == extension(chars@),
        k > 0 ==> chars[k - 1] == '.',
{
    let mut k: usize = 0;
    let mut i: usize = 0;
    assert(chars@.subrange(0, 0) =~= Seq::<char>::empty());
    assert(chars@.take(0) =~= Seq::<char>::empty());
    while i < chars.len()
        invariant
            k <= i <= chars.len(),
            chars@.subrange(k as int, i as int) == extension(chars@.take(i as int)),
            k > 0 ==> chars[k - 1] == '.',
        decreases chars.len() - i,
    {
        let ghost before = chars@.take(i as int);
        assert(chars@.take(i + 1).drop_last() =~= before);
        if chars[i] == '.' {
            k = i + 1;
            assert(chars@.subrange(k as int, i + 1) =~= Seq::<char>::empty());
        } else {
            assert(chars@.subrange(k as int, i + 1) =~= chars@.subrange(k as int, i as int).push(
                chars[i as int],
            ));
        }
        i += 1;
    }
    assert(chars@.take(i as int) =~= chars@);
    k
}

/// Whether the first `end` characters of `chars` end with those from `from`
/// on.
pub fn ends_with_tail(chars: &Vec<char>, end: usize, from: usize) -> (b: bool)
    requires
        end <= chars.len(),
        from <= chars.len(),
    ensures
        b == ends_with(
            chars@.subrange(0, end as int),
            chars@.subrange(from as int, chars.len() as int),
        ),
{
    let m = chars.len() - from;
    if m > end {
        return false;
    }
    let base = end - m;
    let ghost head = chars@.subrange(0, end as int);
    let ghost tail = chars@.subrange(from as int, chars.len() as int);
    let mut j: usize = 0;
    while j < m
        invariant
            j <= m,
            m == chars.len() - from,
            base + m == end,
            end <= chars.len(),
            head == chars@.subrange(0, end as int),
            tail == chars@.subrange(from as int, chars.len() as int),
            forall|t: int| 0 <= t < j ==> #[trigger] tail[t] == head[base + t],
        decreases m - j,
    {
        if chars[base + j] != chars[from + j] {
            assert(head.subrange(head.len() - tail.len(), head.len() as int)[j as int]
                != tail[j as int]);
            return false;
        }
        assert(tail[j as int] == head[base + j]);
        j += 1;
    }
    assert(head.subrange(head.len() - tail.len(), head.len() as int) =~= tail);
    true
}

/// Reads the path of a request.
pub fn target(path: &str) -> (t: Target)
    ensures
        t.name@ == stem(path@),
        t.format == format_of(path@),
{
    let chars = to_chars(path);
    let n = chars.len();
    let k = extension_start(&chars);
    let ghost ext = extension(path@);
    let format = if n - k == 3 && chars[k] == 's' && chars[k + 1] == 'v' && chars[k + 2] == 'g' {
        assert(ext =~= seq!['s', 'v', 'g']);
        Format::Svg
    } else {
        assert(ext != seq!['s', 'v', 'g']) by {
            if ext == seq!['s', 'v', 'g'] {
                assert(ext[0] == 's' && ext[1] == 'v' && ext[2] == 'g');
            }
        }
        Format::Text
    };
    let mut end: usize = n;
    assert(chars@.subrange(0, n as int) =~= chars@);
    if k > 0 {
        let ghost suffix = seq!['.'] + ext;
        assert(suffix =~= chars@.subrange(k - 1, n as int));
        while ends_with_tail(&chars, end, k - 1)
            invariant
                end <= n,
                n == chars.len(),
                0 < k <= n,
                suffix == chars@.subrange(k - 1, n as int),
                without_suffix(chars@, suffix) == without_suffix(
                    chars@.subrange(0, end as int),
                    suffix,
                ),
            decreases end,
        {
            assert(chars@.subrange(0, end as int).subrange(0, end - suffix.len()) =~= chars@.subrange(
                0,
                end - suffix.len(),
            ));
            end -= n - (k - 1);
        }
    }
    let mut name = String::new();
    let mut i: usize = 0;
    while i < end
        invariant
            i <= end <= chars.len(),
            name@ == chars@.subrange(0, i as int),
        decreases end - i,
    {
        name.push(chars[i]);
        assert(chars@.subrange(0, i + 1) =~= chars@.subrange(0, i as int).push(chars[i as int]));
        i += 1;
    }
    Target { name, format }
}

} // verus!
