use ganja_tui::markdown::code::{resolve_language, Syntaxes};
use ganja_tui::markdown::document::Document;
use ganja_tui::markdown::wrap::{atoms, wrap, MdLine};
use ganja_tui::style::{Line, Span, Style};
use ganja_tui::theme::{Named, Rgba, Theme};

/// Renders `source` at `width`, as a transcript would.
fn render(source: &str, width: usize) -> Vec<String> {
    rendered_with(source, width, &Theme::default())
        .into_iter()
        .map(|line| text(&line))
        .collect()
}

fn text(line: &Line) -> String {
    line.spans.iter().map(|span| span.content.as_str()).collect()
}

fn rendered_with(source: &str, width: usize, theme: &Theme) -> Vec<Line> {
    let mut syntaxes = Syntaxes::new();
    let mut document = Document::default();
    document.update(source, theme, &mut syntaxes);

    document.lines().into_iter().flat_map(|line| wrap(line, width)).collect()
}

/// The logical lines a source segments and renders to, before any width.
fn logical(source: &str) -> Vec<String> {
    let mut syntaxes = Syntaxes::new();
    let mut document = Document::default();
    document.update(source, &Theme::default(), &mut syntaxes);

    document.lines().into_iter().map(MdLine::text).collect()
}

/// The style of the first span whose text is `needle`.
fn style_of(source: &str, needle: &str, theme: &Theme) -> Style {
    let spans: Vec<Span> =
        rendered_with(source, 80, theme).into_iter().flat_map(|line| line.spans).collect();
    match spans.iter().find(|span| span.content == needle) {
        Some(span) => span.style,
        None => panic!("no span reads {needle:?} in {source:?}; spans are {spans:?}"),
    }
}

/// A theme that names every key with a colour of its own.
fn themed(revision: u64) -> Theme {
    let keys = [
        "markdownText",
        "markdownHeading",
        "markdownLink",
        "markdownLinkText",
        "markdownCode",
        "markdownBlockQuote",
        "markdownEmph",
        "markdownStrong",
        "markdownHorizontalRule",
        "markdownListItem",
        "markdownListEnumeration",
        "markdownImage",
        "markdownImageText",
        "markdownCodeBlock",
        "syntaxComment",
        "syntaxKeyword",
        "syntaxFunction",
        "syntaxVariable",
        "syntaxString",
        "syntaxNumber",
        "syntaxType",
        "syntaxOperator",
        "syntaxPunctuation",
    ];
    let mut theme = Theme::default();
    for (i, key) in keys.iter().enumerate() {
        theme.colors.push(Named {
            key: key.to_string(),
            color: Rgba { r: i as u8, g: 100, b: revision as u8, a: 255 },
        });
    }
    theme.revision = revision;
    theme
}

/// The style of a theme's colour.
fn colored(theme: &Theme, key: &str) -> Style {
    let color = theme.color(key).and_then(Rgba::color);
    Style::new().fg(color.unwrap_or_else(|| panic!("the theme names {key}")))
}

#[test]
fn a_newline_inside_a_paragraph_is_a_hard_line_break() {
    assert_eq!(
        render("first line\nsecond line", 80),
        vec!["first line".to_owned(), "second line".to_owned()]
    );
}

#[test]
fn text_renders_verbatim_including_the_whitespace_inside_it() {
    assert_eq!(
        render("two  spaces\tand a tab", 80),
        vec!["two  spaces\tand a tab".to_owned()]
    );
}

#[test]
fn a_blank_line_between_paragraphs_stays_one_blank_line() {
    assert_eq!(
        render("one\n\ntwo", 20),
        vec!["one".to_owned(), String::new(), "two".to_owned()]
    );
}

#[test]
fn prose_wraps_on_word_boundaries_the_way_plain_text_did() {
    assert_eq!(
        render("the quick brown fox", 10),
        vec!["the quick".to_owned(), "brown fox".to_owned()]
    );
}

#[test]
fn a_word_wider_than_the_viewport_is_chopped_not_dropped() {
    assert_eq!(
        render("abcdefghij", 4),
        vec!["abcd".to_owned(), "efgh".to_owned(), "ij".to_owned()]
    );
}

#[test]
fn wrapping_measures_display_width_not_bytes() {
    assert_eq!(
        render("ああ ああ", 5),
        vec!["ああ".to_owned(), "ああ".to_owned()]
    );
}

#[test]
fn a_zero_width_viewport_renders_nothing() {
    assert!(render("anything", 0).is_empty());
}

#[test]
fn a_theme_that_names_no_markdown_key_falls_back_to_the_body_role() {
    let theme = Theme::default();

    assert_eq!(
        theme.color("markdownText"),
        None,
        "the fixture must be bare"
    );
    assert_eq!(style_of("plain prose", "plain prose", &theme), theme.fg);
}

#[test]
fn every_top_level_block_kind_segments_on_its_own() {
    let source = "# heading\n\nparagraph\n\n- item\n\n> quoted\n\n```\ncode\n```\n\n---\n";

    assert_eq!(
        logical(source),
        vec![
            "heading".to_owned(),
            String::new(),
            "paragraph".to_owned(),
            String::new(),
            "- item".to_owned(),
            String::new(),
            "\u{258c} quoted".to_owned(),
            String::new(),
            "code".to_owned(),
            String::new(),
            String::new(),
        ],
        "the trailing empty line is the rule, which only a width can fill"
    );
}

#[test]
fn a_table_segments_into_a_grid_with_a_header_rule() {
    let lines = logical("| a | bb |\n| - | -- |\n| 1 | 2 |\n");

    assert_eq!(
        lines,
        vec![
            "\u{250c}───┬────\u{2510}".to_owned(),
            "\u{2502} a \u{2502} bb \u{2502}".to_owned(),
            "\u{251c}───┼────\u{2524}".to_owned(),
            "\u{2502} 1 \u{2502} 2  \u{2502}".to_owned(),
            "\u{2514}───┴────\u{2518}".to_owned(),
        ]
    );
}

#[test]
fn a_horizontal_rule_fills_whatever_width_it_is_drawn_at() {
    assert_eq!(render("---", 6), vec!["──────".to_owned()]);
}

#[test]
fn each_construct_takes_the_theme_key_ruled_for_it() {
    let theme = themed(1);
    let color = |key: &str| colored(&theme, key);

    let cases: [(&str, &str, Style); 6] = [
        (
            "# top",
            "top",
            color("markdownHeading")
                .bold()
                .underlined(),
        ),
        (
            "## next",
            "next",
            color("markdownHeading").bold(),
        ),
        (
            "**loud**",
            "loud",
            color("markdownStrong").bold(),
        ),
        (
            "*soft*",
            "soft",
            color("markdownEmph").italic(),
        ),
        ("`code`", "code", color("markdownCode")),
        ("- item", "- ", color("markdownListItem")),
    ];

    for (source, needle, expected) in cases {
        assert_eq!(style_of(source, needle, &theme), expected, "{source}");
    }
}

#[test]
fn a_blockquote_takes_a_dim_border_and_an_italic_body() {
    let theme = themed(1);
    let quote = colored(&theme, "markdownBlockQuote");

    assert_eq!(style_of("> quoted", "\u{258c} ", &theme), theme.dim);
    assert_eq!(
        style_of("> quoted", "quoted", &theme),
        quote.italic()
    );
}

#[test]
fn a_link_renders_its_label_then_its_url_and_collapses_when_they_match() {
    assert_eq!(
        render("[docs](https://ganja.dev)", 80),
        vec!["docs (https://ganja.dev)".to_owned()]
    );
    assert_eq!(
        render("<https://ganja.dev>", 80),
        vec!["https://ganja.dev".to_owned()],
        "an autolink's label is its url, so the url is not repeated"
    );
}

#[test]
fn emphasis_code_and_heading_markers_are_never_drawn() {
    for source in ["# heading", "**loud**", "`code`", "*soft*"] {
        let drawn = render(source, 80).join("");
        assert!(
            !drawn.contains('#') && !drawn.contains('*') && !drawn.contains('`'),
            "{source} drew its markers: {drawn:?}"
        );
    }
}

#[test]
fn a_list_keeps_its_source_marker_and_hangs_its_wrapped_text() {
    assert_eq!(
        render("* alpha beta gamma", 9),
        vec![
            "* alpha".to_owned(),
            "  beta".to_owned(),
            "  gamma".to_owned()
        ],
        "the source bullet is kept and continuation lines hang under it"
    );
    assert_eq!(
        render("3. third\n4. fourth", 20),
        vec!["3. third".to_owned(), "4. fourth".to_owned()],
        "an ordered list counts from where the source started"
    );
}

#[test]
fn a_nested_list_indents_under_the_item_that_holds_it() {
    assert_eq!(
        render("- outer\n  - inner", 20),
        vec!["- outer".to_owned(), "  - inner".to_owned()]
    );
}

#[test]
fn a_task_item_renders_its_checkbox() {
    assert_eq!(
        render("- [x] done\n- [ ] todo", 20),
        vec!["- [x] done".to_owned(), "- [ ] todo".to_owned()]
    );
}

#[test]
fn a_fence_that_names_a_language_is_highlighted_by_scope() {
    let theme = themed(1);
    let source = "```rust\nfn main() {}\n```";
    let keyword = colored(&theme, "syntaxKeyword");

    assert_eq!(
        style_of(source, "fn", &theme),
        keyword.italic(),
        "`fn` is `storage.type.function.rust`, which the table sends to syntaxKeyword"
    );
}

#[test]
fn a_comment_is_italic_in_the_comment_slot() {
    let theme = themed(1);
    let comment = colored(&theme, "syntaxComment");

    assert_eq!(
        style_of("```rust\n// note\n```", "// note", &theme),
        comment.italic()
    );
}

#[test]
fn a_fence_whose_language_is_unknown_or_absent_is_flat_code() {
    let theme = themed(1);
    let code = colored(&theme, "markdownCode");

    for source in [
        "```\nfn main() {}\n```",
        "```notalanguage\nfn main() {}\n```",
        "    fn main() {}",
    ] {
        assert_eq!(
            style_of(source, "fn main() {}", &theme),
            code,
            "{source}"
        );
    }
}

#[test]
fn upstreams_info_string_aliases_are_honored() {
    let cases = [
        ("udiff", Some("diff")),
        ("patch", Some("diff")),
        ("makefile", Some("make")),
        ("Rust", Some("rust")),
        ("", None),
        ("   ", None),
    ];

    for (info, expected) in cases {
        assert_eq!(resolve_language(info).as_deref(), expected, "{info:?}");
    }
}

#[test]
fn a_streamed_delta_styles_only_the_block_that_is_still_growing() {
    let theme = Theme::default();
    let mut syntaxes = Syntaxes::new();
    let mut document = Document::default();

    document.update("# title\n\n```rust\nfn main() {}\n```\n\nand th", &theme, &mut syntaxes);
    assert_eq!(document.styled(), 3, "three blocks on the first pass");

    document.update(
        "# title\n\n```rust\nfn main() {}\n```\n\nand then some",
        &theme,
        &mut syntaxes,
    );
    assert_eq!(
        document.styled(),
        4,
        "only the trailing paragraph may be styled again"
    );
}

#[test]
fn an_unchanged_source_is_neither_parsed_nor_styled_again() {
    let theme = Theme::default();
    let mut syntaxes = Syntaxes::new();
    let mut document = Document::default();

    document.update("alpha\n\nbeta", &theme, &mut syntaxes);
    document.update("alpha\n\nbeta", &theme, &mut syntaxes);

    assert_eq!(document.styled(), 2, "two blocks, styled once each");
    assert_eq!(document.parsed(), 1, "the second call had nothing to read");
}

#[test]
fn a_theme_switch_restyles_every_block_the_cache_holds() {
    let first = themed(1);
    let second = themed(2);
    assert_ne!(
        first.revision, second.revision,
        "a switch has to change the revision, or nothing below is tested"
    );

    let mut syntaxes = Syntaxes::new();
    let mut document = Document::default();
    document.update("alpha\n\nbeta", &first, &mut syntaxes);
    assert_eq!(document.styled(), 2);

    document.update("alpha\n\nbeta", &second, &mut syntaxes);
    assert_eq!(
        document.styled(),
        4,
        "both blocks have to be styled again under the new palette"
    );
}

#[test]
fn a_width_change_alone_never_reparses_or_restyles_a_block() {
    let theme = Theme::default();
    let mut syntaxes = Syntaxes::new();
    let mut document = Document::default();
    document.update("alpha beta gamma delta", &theme, &mut syntaxes);
    let (styled, parsed) = (document.styled(), document.parsed());

    for width in [10, 20, 5, 80] {
        // The transcript re-enters stage 1 on every wrap it has to redo,
        // which a resize is; the source is what says there is nothing to
        // do.
        document.update("alpha beta gamma delta", &theme, &mut syntaxes);
        let lines: Vec<_> = document
            .lines()
            .into_iter()
            .flat_map(|line| wrap(line, width))
            .collect();
        assert!(!lines.is_empty(), "width {width} rendered nothing");
    }

    assert_eq!(document.parsed(), parsed, "a wrap is not a parse");
    assert_eq!(document.styled(), styled, "a wrap is not a re-style");
}

#[test]
fn atoms_split_a_span_into_whitespace_and_word_runs() {
    let spans = vec![Span::raw("a  b".to_owned())];
    let split: Vec<String> = atoms(&spans).into_iter().map(|span| span.content).collect();

    assert_eq!(split, vec!["a".to_owned(), "  ".to_owned(), "b".to_owned()]);
}

#[test]
fn a_code_line_is_chopped_at_the_column_rather_than_re_flowed() {
    assert_eq!(
        render("```\nlet x = 1;\n```", 5),
        vec!["let x".to_owned(), " = 1;".to_owned()],
        "code keeps its own spacing and simply runs out of room"
    );
}

#[test]
fn a_table_row_is_clipped_rather_than_wrapped() {
    let lines = render("| alpha | beta |\n| - | - |\n| 1 | 2 |\n", 9);

    for line in &lines {
        assert!(
            line.chars().count() <= 9,
            "a grid row must not wrap, got {line:?}"
        );
    }
    assert!(
        lines.iter().any(|line| line.starts_with('\u{2502}')),
        "got {lines:?}"
    );
}

#[test]
fn a_style_survives_the_wrap_it_is_carried_through() {
    let theme = themed(1);
    let strong = colored(&theme, "markdownStrong");
    let lines = rendered_with("plain **loud words here** plain", 12, &theme);
    let bold = strong.bold();

    let emphasized: String = lines
        .iter()
        .flat_map(|line| line.spans.iter())
        .filter(|span| span.style == bold)
        .map(|span| span.content.as_str())
        .collect();

    assert_eq!(
        emphasized, "loudwords here",
        "the bold run has to survive the break inside it, got {lines:?}"
    );
}

#[test]
fn an_empty_source_renders_nothing() {
    assert!(render("", 20).is_empty());
    assert!(render("   \n\n  ", 20).is_empty(), "and neither does blank");
}

#[test]
fn a_wrapped_line_paints_no_two_neighbours_alike() {
    let theme = themed(1);
    for line in rendered_with("plain *soft* **loud** `code` and more prose", 12, &theme) {
        for pair in line.spans.windows(2) {
            assert_ne!(pair[0].style, pair[1].style, "{line:?}");
        }
    }
}

#[test]
fn wrapping_loses_nothing_but_the_blanks_its_breaks_consume() {
    let source = "the quick  brown fox\tjumps over thelazydog today";
    let kept = |text: &str| text.chars().filter(|c| !c.is_whitespace()).collect::<String>();
    for width in [1, 3, 7, 12, 80] {
        assert_eq!(kept(&render(source, width).concat()), kept(source), "at {width}");
    }
}

#[test]
fn chopping_code_loses_nothing_at_all() {
    for width in [1, 2, 5, 80] {
        assert_eq!(render("```\nlet x  =  1;\n```", width).concat(), "let x  =  1;", "at {width}");
    }
}

#[test]
fn inline_html_reaches_the_screen_as_what_it_says() {
    assert_eq!(render("a <b>x</b> c", 40), vec!["a <b>x</b> c".to_owned()]);
}

#[test]
fn an_html_block_reaches_the_screen_as_what_it_says() {
    assert_eq!(
        render("<div>\n  <b>x</b>\n</div>\n\nafter", 40),
        ["<div>", "  <b>x</b>", "</div>", "", "after"].map(str::to_owned).to_vec()
    );
    assert_eq!(render("> <p>q</p>", 40), vec!["\u{258c} <p>q</p>".to_owned()]);
    assert_eq!(
        render("- <p>one</p>\n- two", 40),
        vec!["- <p>one</p>".to_owned(), "- two".to_owned()]
    );
}

#[test]
fn an_ordered_list_keeps_the_delimiter_its_source_wrote() {
    assert_eq!(render("1) one\n2) two", 20), vec!["1) one".to_owned(), "2) two".to_owned()]);
    assert_eq!(render("+ one", 20), vec!["+ one".to_owned()]);
}

#[test]
fn a_loose_list_has_a_blank_line_between_its_items() {
    assert_eq!(
        render("- one\n\n- two", 20),
        vec!["- one".to_owned(), String::new(), "- two".to_owned()]
    );
}

#[test]
fn grammars_are_unpacked_only_for_a_fence_that_names_a_language() {
    let theme = Theme::default();
    let mut syntaxes = Syntaxes::new();
    let mut document = Document::default();
    document.update("prose\n\n```\ncode\n```", &theme, &mut syntaxes);
    document.update("```rust\nfn main() {}\n```", &theme, &mut syntaxes);

    assert_eq!(document.parsed(), 2);
    assert_eq!(document.styled(), 3);
}

#[test]
fn a_comment_runs_on_over_lines() {
    let theme = themed(1);
    let source = "```rust\n/* one\ntwo */ let x = 1;\n```";
    let lines = rendered_with(source, 80, &theme);
    assert_eq!(lines.iter().map(text).collect::<Vec<_>>(), ["/* one", "two */ let x = 1;"]);
    let comment = lines[0].spans[0].style;
    assert!(lines[0].spans.iter().all(|span| span.style == comment), "{:?}", lines[0]);
    assert!(lines[1].spans[0].content.starts_with("two"), "{:?}", lines[1]);
    assert_eq!(lines[1].spans[0].style, comment);
    assert_ne!(style_of(source, "let", &theme), comment);
}

#[test]
fn wrapped_lines_fit_the_width() {
    let source = "some **bold** words and a verylongwordindeed\n\n> quoted words that wrap\n\n\
                  - item words that wrap too\n\n```\nlet answer = 42;\n```\n\n---";
    for width in 6..40 {
        for line in render(source, width) {
            assert!(line.chars().count() <= width, "{line:?} at {width}");
        }
    }
}
