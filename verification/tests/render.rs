use game_of_life::game::Board;
use game_of_life::game::Game;
use game_of_life::render::drawable;
use game_of_life::render::finish;
use game_of_life::render::svg;
use game_of_life::render::text;
use game_of_life::render::try_svg;
use game_of_life::render::RenderError;
use game_of_life::render::SVGOptions;
use game_of_life::render::TextOptions;
use game_of_life::text::push_decimal;
use quick_xml::events::Event;

fn game(seed: &str, generation: usize, delta: usize) -> Game {
    Game {
        board: Board::from_seed(seed.to_string(), '#', '.', '\n').unwrap(),
        generation,
        delta,
    }
}

const CAPTION: &str = "font-family=\"monospace\" font-size=\"12\" fill=\"black\" \
                       dominant-baseline=\"center\" text-anchor=\"middle\"";

#[test]
fn blank_board_draws_no_rectangle() {
    let g = game("...\n...", 0, 0);
    let out = svg(&g, SVGOptions::default()).unwrap();
    assert_eq!(out.matches("<rect").count(), 0);
    assert!(out.contains(">t = 0, Δ = 0</text>"));
    assert_eq!(
        out,
        format!(
            "<svg xmlns=\"http://www.w3.org/2000/svg\" width=\"60\" height=\"60\">\
             <text x=\"50%\" y=\"55\" {}>t = 0, Δ = 0</text></svg>",
            CAPTION
        )
    );
}

#[test]
fn one_rectangle_for_each_alive_cell() {
    let g = game("#.\n.#\n##", 7, 12);
    let out = svg(&g, SVGOptions::default()).unwrap();
    assert_eq!(out.matches("<rect").count(), 4);
    let rect = |x: usize, y: usize| {
        format!(
            "<rect x=\"{}\" y=\"{}\" width=\"20\" height=\"20\" fill=\"black\" \
             stroke=\"white\" stroke-width=\"2\"/>",
            x, y
        )
    };
    assert_eq!(
        out,
        format!(
            "<svg xmlns=\"http://www.w3.org/2000/svg\" width=\"40\" height=\"80\">{}{}{}{}\
             <text x=\"50%\" y=\"75\" {}>t = 7, Δ = 12</text></svg>",
            rect(0, 0),
            rect(20, 20),
            rect(0, 40),
            rect(20, 40),
            CAPTION
        )
    );
}

#[test]
fn options_style_the_drawing() {
    let g = game(".#", 1, 1);
    let opts = SVGOptions::new(Some(3), Some(0), Some("red".to_string()), Some("#00f".to_string()));
    assert_eq!(
        svg(&g, opts).unwrap(),
        "<svg xmlns=\"http://www.w3.org/2000/svg\" width=\"6\" height=\"23\">\
         <rect x=\"3\" y=\"0\" width=\"3\" height=\"3\" fill=\"#00f\" stroke=\"red\" \
         stroke-width=\"0\"/>\
         <text x=\"50%\" y=\"18\" font-family=\"monospace\" font-size=\"12\" fill=\"#00f\" \
         dominant-baseline=\"center\" text-anchor=\"middle\">t = 1, Δ = 1</text></svg>"
    );
}

#[test]
fn reserved_characters_in_colors_are_escaped() {
    let g = game("#", 0, 0);
    let opts = SVGOptions::new(
        Some(1),
        Some(1),
        Some("a<b>c".to_string()),
        Some("\"x\" & 'y'".to_string()),
    );
    let out = svg(&g, opts).unwrap();
    assert!(out.contains(" stroke=\"a&lt;b&gt;c\""));
    assert!(out.contains(" fill=\"&quot;x&quot; &amp; &apos;y&apos;\""));
    assert_eq!(out.matches("&quot;x&quot; &amp; &apos;y&apos;").count(), 2);
    assert!(!out.contains("a<b>c"));
}

#[test]
fn colors_beyond_ascii_pass_through() {
    let g = game("#", 0, 0);
    let opts = SVGOptions::new(None, None, Some("weiß".to_string()), Some("黒".to_string()));
    let out = svg(&g, opts).unwrap();
    assert!(out.contains(" fill=\"黒\" stroke=\"weiß\" "));
}

#[test]
fn cell_size_zero_leaves_the_footer() {
    let g = game("##\n##", 3, 0);
    let out = svg(&g, SVGOptions::new(Some(0), None, None, None)).unwrap();
    assert!(out.starts_with("<svg xmlns=\"http://www.w3.org/2000/svg\" width=\"0\" height=\"20\">"));
    assert_eq!(out.matches("<rect x=\"0\" y=\"0\" width=\"0\" height=\"0\"").count(), 4);
    assert!(out.contains(" y=\"15\" "));
}

#[test]
fn board_without_rows_draws_only_the_footer() {
    let g = Game { board: Board { grid: vec![] }, generation: 0, delta: 0 };
    assert_eq!(
        svg(&g, SVGOptions::default()).unwrap(),
        format!(
            "<svg xmlns=\"http://www.w3.org/2000/svg\" width=\"0\" height=\"20\">\
             <text x=\"50%\" y=\"15\" {}>t = 0, Δ = 0</text></svg>",
            CAPTION
        )
    );
}

#[test]
fn svg_does_not_change_the_game() {
    let g = game("#.\n.#", 4, 2);
    svg(&g, SVGOptions::default()).unwrap();
    assert_eq!(g.board.grid, vec![vec![true, false], vec![false, true]]);
    assert_eq!(g.generation, 4);
    assert_eq!(g.delta, 2);
}

#[test]
fn svg_options_default_values() {
    let d = SVGOptions::default();
    assert_eq!(d.cell_size, 20);
    assert_eq!(d.stroke_width, 2);
    assert_eq!(d.stroke_color, "white");
    assert_eq!(d.fill_color, "black");
    let n = SVGOptions::new(Some(5), None, None, Some("blue".to_string()));
    assert_eq!(n.cell_size, 5);
    assert_eq!(n.stroke_width, 2);
    assert_eq!(n.stroke_color, "white");
    assert_eq!(n.fill_color, "blue");
    let n = SVGOptions::new(None, Some(9), Some("pink".to_string()), None);
    assert_eq!(n.cell_size, 20);
    assert_eq!(n.stroke_width, 9);
    assert_eq!(n.stroke_color, "pink");
    assert_eq!(n.fill_color, "black");
}

#[test]
fn text_options_default_values() {
    let d = TextOptions::default();
    assert_eq!((d.alive, d.dead, d.separator), ('#', '.', '\n'));
    let n = TextOptions::new(Some('O'), None, Some('/'));
    assert_eq!((n.alive, n.dead, n.separator), ('O', '.', '/'));
    let n = TextOptions::new(None, Some(' '), None);
    assert_eq!((n.alive, n.dead, n.separator), ('#', ' ', '\n'));
}

#[test]
fn text_renders_the_seed() {
    let g = game("#.\n.#", 5, 1);
    assert_eq!(text(&g, TextOptions::default()), "#.\n.#");
    assert_eq!(text(&g, TextOptions::new(Some('O'), Some(' '), Some('/'))), "O / O");
}

#[test]
fn text_can_be_read_back() {
    let g = game("#..\n.##\n...", 5, 1);
    let opts = TextOptions::new(Some('1'), Some('0'), Some(';'));
    let shown = text(&g, opts);
    assert_eq!(shown, "100;011;000");
    let back = Board::from_seed(shown, '1', '0', ';').unwrap();
    assert_eq!(back.grid, g.board.grid);
}

#[test]
fn text_of_a_board_without_rows_is_empty() {
    let g = Game { board: Board { grid: vec![] }, generation: 0, delta: 0 };
    assert_eq!(text(&g, TextOptions::default()), "");
}

#[test]
fn drawing_too_large_to_measure_is_not_drawable() {
    let g = game("##\n##", 0, 0);
    assert!(drawable(&g, &SVGOptions::default()));
    assert!(drawable(&g, &SVGOptions::new(Some((usize::MAX - 20) / 2), None, None, None)));
    assert!(!drawable(&g, &SVGOptions::new(Some((usize::MAX - 20) / 2 + 1), None, None, None)));
    assert!(!drawable(&g, &SVGOptions::new(Some(usize::MAX), None, None, None)));
    assert!(try_svg(&g, SVGOptions::new(Some(usize::MAX), None, None, None)).is_none());
    let wide = game("###", 0, 0);
    assert!(!drawable(&wide, &SVGOptions::new(Some(usize::MAX / 3 + 1), None, None, None)));
    assert!(drawable(&wide, &SVGOptions::new(Some(usize::MAX / 3), None, None, None)));
}

#[test]
fn rows_of_different_lengths_are_drawn_as_they_are() {
    let g = Game {
        board: Board { grid: vec![vec![false], vec![], vec![true, false, true]] },
        generation: 0,
        delta: 0,
    };
    assert!(drawable(&g, &SVGOptions::default()));
    let rect = |x: usize, y: usize| {
        format!(
            "<rect x=\"{}\" y=\"{}\" width=\"20\" height=\"20\" fill=\"black\" \
             stroke=\"white\" stroke-width=\"2\"/>",
            x, y
        )
    };
    assert_eq!(
        try_svg(&g, SVGOptions::default()).unwrap().unwrap(),
        format!(
            "<svg xmlns=\"http://www.w3.org/2000/svg\" width=\"20\" height=\"80\">{}{}\
             <text x=\"50%\" y=\"75\" {}>t = 0, Δ = 0</text></svg>",
            rect(0, 40),
            rect(40, 40),
            CAPTION
        )
    );
    let long = SVGOptions::new(Some(usize::MAX / 2), None, None, None);
    assert!(!drawable(&g, &long));
}

#[test]
fn try_svg_draws_what_svg_draws() {
    let g = game("#.\n.#", 2, 2);
    assert_eq!(
        try_svg(&g, SVGOptions::default()).unwrap().unwrap(),
        svg(&g, SVGOptions::default()).unwrap()
    );
}

#[test]
fn finish_reads_utf8() {
    assert_eq!(finish("t = 0, Δ = 0".as_bytes().to_vec()).unwrap(), "t = 0, Δ = 0");
    assert_eq!(finish(Vec::new()).unwrap(), "");
}

#[test]
fn finish_refuses_what_is_not_utf8() {
    assert!(matches!(finish(vec![0x66, 0xff, 0x66]), Err(RenderError::Encoding)));
    assert!(matches!(finish(vec![0xce]), Err(RenderError::Encoding)));
}

#[test]
fn decimal_is_what_std_prints() {
    for n in [0usize, 1, 9, 10, 11, 99, 100, 101, 12345, 1_000_000, usize::MAX - 1, usize::MAX] {
        let mut s = String::from("n=");
        push_decimal(&mut s, n);
        assert_eq!(s, format!("n={}", n));
    }
}

#[test]
fn drawing_is_well_formed_and_reads_back() {
    let g = game("#.#\n.#.\n..#", 3, 5);
    let opts = SVGOptions::new(Some(10), Some(1), Some("a\"b".to_string()), Some("<&>".to_string()));
    let out = svg(&g, opts).unwrap();
    let mut reader = quick_xml::Reader::from_str(&out);
    let mut squares = Vec::new();
    let mut texts = Vec::new();
    let mut open = Vec::new();
    loop {
        match reader.read_event().unwrap() {
            Event::Start(e) => open.push(e.name().as_ref().to_vec()),
            Event::End(e) => assert_eq!(open.pop().unwrap(), e.name().as_ref()),
            Event::Empty(e) => {
                assert_eq!(e.name().as_ref(), b"rect");
                assert_eq!(open, vec![b"svg".to_vec()]);
                let attrs: Vec<(String, String)> = e
                    .attributes()
                    .map(|a| {
                        let a = a.unwrap();
                        (
                            String::from_utf8(a.key.as_ref().to_vec()).unwrap(),
                            a.unescape_value().unwrap().into_owned(),
                        )
                    })
                    .collect();
                squares.push(attrs);
            }
            Event::Text(t) => {
                assert_eq!(open, vec![b"svg".to_vec(), b"text".to_vec()]);
                texts.push(t.unescape().unwrap().into_owned());
            }
            Event::Eof => break,
            other => panic!("{:?}", other),
        }
    }
    assert!(open.is_empty());
    assert_eq!(texts, vec!["t = 3, Δ = 5".to_string()]);
    let at = |x: &str, y: &str| {
        [("x", x), ("y", y), ("width", "10"), ("height", "10"), ("fill", "<&>"), ("stroke", "a\"b"), ("stroke-width", "1")]
            .iter()
            .map(|(k, v)| (k.to_string(), v.to_string()))
            .collect::<Vec<_>>()
    };
    assert_eq!(squares, vec![at("0", "0"), at("20", "0"), at("10", "10"), at("20", "20")]);
}

#[test]
fn one_alive_cell_with_given_colors() {
    let g = Game::from(Board { grid: vec![vec![false, true]] });
    let opts = SVGOptions::new(Some(10), Some(1), Some("red".to_string()), Some("blue".to_string()));
    assert_eq!(
        svg(&g, opts).unwrap(),
        "<svg xmlns=\"http://www.w3.org/2000/svg\" width=\"20\" height=\"30\">\
         <rect x=\"10\" y=\"0\" width=\"10\" height=\"10\" fill=\"blue\" stroke=\"red\" \
         stroke-width=\"1\"/>\
         <text x=\"50%\" y=\"25\" font-family=\"monospace\" font-size=\"12\" fill=\"blue\" \
         dominant-baseline=\"center\" text-anchor=\"middle\">t = 0, Δ = 0</text></svg>"
    );
}

#[test]
fn dead_two_by_two_board_has_the_caption_alone() {
    let g = Game::from(Board { grid: vec![vec![false, false], vec![false, false]] });
    let out = svg(&g, SVGOptions::new(None, None, None, None)).unwrap();
    assert_eq!(out.matches("<rect").count(), 0);
    assert_eq!(out.matches("<text").count(), 1);
    assert_eq!(out.matches("</text>").count(), 1);
    assert!(out.contains(">t = 0, \u{394} = 0</text>"));
    assert!(out.starts_with("<svg "));
    assert!(out.ends_with("</svg>"));
}

#[test]
fn markup_in_a_color_is_escaped() {
    let g = Game::from(Board { grid: vec![vec![true]] });
    let out = svg(&g, SVGOptions::new(None, None, None, Some("a<b".to_string()))).unwrap();
    assert_eq!(out.matches(" fill=\"a&lt;b\"").count(), 2);
    assert!(!out.contains("a<b"));
    assert_eq!(out.matches('<').count(), 5);
}

#[test]
fn every_measurable_board_is_drawn() {
    for seed in ["", "#", ".", "#.#\n.#.", "\n\n", "####\n####\n####"] {
        for size in [0usize, 1, 20, 1 << 40] {
            let g = game(seed, usize::MAX, usize::MAX);
            let opts = || SVGOptions::new(Some(size), Some(usize::MAX), None, None);
            assert!(drawable(&g, &opts()));
            let first = svg(&g, opts()).unwrap();
            assert_eq!(svg(&g, opts()).unwrap(), first);
            assert_eq!(first.matches("<rect").count(), seed.matches('#').count());
            assert!(first.contains(&format!(">t = {}, Δ = {}</text>", usize::MAX, usize::MAX)));
            assert!(first.contains(&format!(" height=\"{}\">", g.board.rows() * size + 20)));
            assert!(first.contains(&format!(" y=\"{}\" ", g.board.rows() * size + 15)));
        }
    }
}
