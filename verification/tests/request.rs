use game_of_life::game::Board;
use game_of_life::game::Game;
use game_of_life::render::SVGOptions;
use game_of_life::render::TextOptions;
use game_of_life::request::show;
use game_of_life::request::target;
use game_of_life::request::valid_name;
use game_of_life::request::Format;

fn parts(path: &str) -> (String, Format) {
    let t = target(path);
    (t.name, t.format)
}

#[test]
fn extension_selects_the_format() {
    assert_eq!(parts("glider.svg"), ("glider".to_string(), Format::Svg));
    assert_eq!(parts("glider.txt"), ("glider".to_string(), Format::Text));
    assert_eq!(parts("glider.png"), ("glider".to_string(), Format::Text));
    assert_eq!(parts("glider.SVG"), ("glider".to_string(), Format::Text));
    assert_eq!(parts("glider.svgz"), ("glider".to_string(), Format::Text));
}

#[test]
fn path_without_a_dot_is_the_name() {
    assert_eq!(parts("glider"), ("glider".to_string(), Format::Text));
    assert_eq!(parts(""), (String::new(), Format::Text));
    assert_eq!(parts("svg"), ("svg".to_string(), Format::Svg));
}

#[test]
fn repeated_extension_is_removed_as_often_as_it_stands() {
    assert_eq!(parts("a.svg.svg"), ("a".to_string(), Format::Svg));
    assert_eq!(parts("a.txt.svg"), ("a.txt".to_string(), Format::Svg));
    assert_eq!(parts("a."), ("a".to_string(), Format::Text));
    assert_eq!(parts("a..."), ("a".to_string(), Format::Text));
    assert_eq!(parts(".svg"), (String::new(), Format::Svg));
    assert_eq!(parts(".svg.svg.svg"), (String::new(), Format::Svg));
    assert_eq!(parts("x.a.a.b.a.a"), ("x.a.a.b".to_string(), Format::Text));
}

#[test]
fn target_agrees_with_std_on_the_name() {
    for path in [
        "", ".", "..", "a", "a.b", "a.b.c", "a.b.b", "b.b", "svg.svg", "a.svg.", "ä.ö.ö", "x..x",
        "..x..x", "1.2.3.2.3", "-.-", "glider.svg", "a b.c d",
    ] {
        let ext = path.split('.').last().unwrap_or("txt");
        let name = path.trim_end_matches(&format!(".{}", ext));
        let t = target(path);
        assert_eq!(t.name, name, "{:?}", path);
        assert_eq!(t.format == Format::Svg, ext == "svg", "{:?}", path);
    }
}

#[test]
fn names_are_letters_digits_and_hyphens() {
    assert!(valid_name("glider"));
    assert!(valid_name("glider-gun-2"));
    assert!(valid_name("-"));
    assert!(valid_name(""));
    assert!(valid_name("größe"));
    assert!(valid_name("٣"));
    assert!(!valid_name("glider.svg"));
    assert!(!valid_name("glider gun"));
    assert!(!valid_name("a_b"));
    assert!(!valid_name("a/b"));
    assert!(!valid_name("ab!"));
}

#[test]
fn valid_name_agrees_with_std() {
    for name in ["", "a", "A-1", "a.b", " ", "é", "日本語", "a\u{301}", "x\n", "½", "Ⅷ", "a+b"] {
        assert_eq!(
            valid_name(name),
            name.chars().all(|c| c.is_alphanumeric() || c == '-'),
            "{:?}",
            name
        );
    }
}

#[test]
fn content_types() {
    assert_eq!(Format::Svg.content_type(), "image/svg+xml");
    assert_eq!(Format::Text.content_type(), "text/plain; charset=utf-8");
}

#[test]
fn show_selects_the_renderer() {
    let game = || Game {
        board: Board::from_seed("#.".to_string(), '#', '.', '\n').unwrap(),
        generation: 2,
        delta: 1,
    };
    let shown = show(&game(), Format::Text, TextOptions::new(Some('x'), None, None), SVGOptions::default());
    assert_eq!(shown.unwrap().unwrap(), "x.");
    let shown = show(&game(), Format::Svg, TextOptions::default(), SVGOptions::default());
    let drawn = shown.unwrap().unwrap();
    assert!(drawn.starts_with("<svg "));
    assert!(drawn.ends_with(">t = 2, Δ = 1</text></svg>"));
    let huge = SVGOptions::new(Some(usize::MAX), None, None, None);
    assert!(show(&game(), Format::Svg, TextOptions::default(), huge).is_none());
    let huge = SVGOptions::new(Some(usize::MAX), None, None, None);
    assert_eq!(show(&game(), Format::Text, TextOptions::default(), huge).unwrap().unwrap(), "#.");
}
