use mr::info::render::{
    flowing_lines, line_end, stretch, CountNewlines, lines_into_words, lookup, render_text_block, write_indented, writeln_indented,
    FlowingLines, NodeLines,
};
use mr::info::{
    Heading, HeadingLevel, Id, IndexEntry, Menu, MenuComment, MenuEntry, MenuItem, Paragraph,
    Printindex, TableEntry, TextBlock, TextBlockContent, Verbatim,
};
use mr::RenderOptions;

fn words(ws: &[&str]) -> Vec<String> {
    ws.iter().map(|w| w.to_string()).collect()
}

fn top() -> Id {
    Id {
        infofile: None,
        nodename: Some("Top".to_string()),
    }
}

fn top_at_line_one() -> NodeLines {
    vec![(top(), 1)]
}

#[test]
fn render_options_defaults() {
    let opt = RenderOptions::new();
    assert_eq!(opt.indent(), 0);
    assert_eq!(opt.max_width(), 79);
    assert_eq!(RenderOptions::default(), opt);
}

#[test]
fn render_options_for_terminal_keep_last_column_free() {
    let opt = RenderOptions::new_for_terminal((100, 40));
    assert_eq!(opt.indent(), 0);
    assert_eq!(opt.max_width(), 99);
    assert_eq!(RenderOptions::new_for_terminal((0, 40)).max_width(), 0);
}

#[test]
fn indenting_twice_is_indenting_by_the_sum() {
    let opt = RenderOptions::new();
    let twice = opt.indented(2).indented(5);
    let once = opt.indented(7);
    assert_eq!(twice, once);
    assert_eq!(opt.indented(0), opt);
    assert_eq!(once.indent() + once.max_width(), opt.indent() + opt.max_width());
    assert_eq!(once.indent(), 7);
    assert_eq!(once.max_width(), 72);
}

#[test]
fn writes_after_the_indentation() {
    let mut s = String::from("x");
    write_indented(&mut s, "abc", RenderOptions::new().indented(3));
    assert_eq!(s, "x   abc");
    writeln_indented(&mut s, "d", RenderOptions::new().indented(1));
    assert_eq!(s, "x   abc d\n");
}

#[test]
fn flowing_lines_fill_greedily() {
    let lines = flow(words(&["aaa", "bb", "c", "dddd"]), 7, false);
    assert_eq!(lines, vec!["aaa bb".to_string(), "c dddd".to_string()]);
}

#[test]
fn flowing_lines_stretch_all_but_the_last_line() {
    let lines = flow(words(&["aaa", "bb", "c", "dddd"]), 7, true);
    assert_eq!(lines, vec!["aaa  bb".to_string(), "c dddd".to_string()]);
}

#[test]
fn flowing_lines_give_extra_spaces_to_the_first_gaps() {
    let lines = flow(words(&["a", "b", "c", "dddddd"]), 6, true);
    assert_eq!(lines, vec!["a  b c".to_string(), "dddddd".to_string()]);
}

#[test]
fn flowing_lines_keep_a_long_word_whole() {
    let lines = flow(words(&["abcdefghij", "k"]), 5, true);
    assert_eq!(lines, vec!["abcdefghij".to_string(), "k".to_string()]);
    assert_eq!(flow(Vec::new(), 5, true), Vec::<String>::new());
}

#[test]
fn flowing_lines_count_graphemes() {
    // "e\u{301}" is one grapheme: the two words fit in 3 columns.
    let lines = flow(words(&["e\u{301}", "x"]), 3, false);
    assert_eq!(lines, vec!["e\u{301} x".to_string()]);
}

#[test]
fn flowing_lines_keep_the_words() {
    let ws = words(&["one", "two", "three", "four", "five", "six"]);
    let lines = flow(ws.clone(), 9, false);
    assert_eq!(lines_into_words(&lines), ws);
}

#[test]
fn flowing_lines_one_at_a_time() {
    let mut f = FlowingLines::new(words(&["aaa", "bb", "c"]), 6, true);
    assert_eq!(f.next(), Some("aaa bb".to_string()));
    assert_eq!(f.next(), Some("c".to_string()));
    assert_eq!(f.next(), None);
}

#[test]
fn lines_split_into_words() {
    let lines = vec!["  foo bar\t".to_string(), "".to_string(), "baz".to_string()];
    assert_eq!(lines_into_words(&lines), words(&["foo", "bar", "baz"]));
}

#[test]
fn lookup_finds_the_last_record() {
    let mut map: NodeLines = vec![(top(), 1)];
    assert_eq!(lookup(&map, &top()), Some(1));
    map.push((top(), 12));
    assert_eq!(lookup(&map, &top()), Some(12));
    let other = Id {
        infofile: Some("top".to_string()),
        nodename: Some("Top".to_string()),
    };
    assert_eq!(lookup(&map, &other), None);
}

fn render(b: TextBlock, opt: RenderOptions) -> String {
    let mut s = String::new();
    assert!(render_text_block(&b, &mut s, opt, &top_at_line_one()));
    s
}

#[test]
fn paragraph_is_filled_and_stretched() {
    let b = TextBlock {
        content: TextBlockContent::Paragraph(Paragraph {
            lines: vec!["aaa bb".to_string(), "c   dddd".to_string()],
        }),
    };
    let opt = RenderOptions::new_for_terminal((10, 24)).indented(2);
    assert_eq!(render(b, opt), "  aaa  bb\n  c dddd\n\n");
}

#[test]
fn heading_is_bold_and_red() {
    let b = TextBlock {
        content: TextBlockContent::Heading(Heading {
            level: HeadingLevel::Major,
            text: "Title".to_string(),
        }),
    };
    assert_eq!(render(b, RenderOptions::new().indented(4)), "\u{1b}[1;31mTitle\u{1b}[0m\n");
}

#[test]
fn verbatim_lines_are_green_and_further_in() {
    let b = TextBlock {
        content: TextBlockContent::Verbatim(Verbatim {
            lines: vec!["x = 1".to_string(), "".to_string()],
        }),
    };
    assert_eq!(
        render(b, RenderOptions::new().indented(1)),
        "      \u{1b}[32mx = 1\u{1b}[0m\n      \u{1b}[32m\u{1b}[0m\n\n"
    );
}

#[test]
fn unknown_lines_are_bright_red() {
    let b = TextBlock {
        content: TextBlockContent::BunchOfUnknownLines(vec!["??".to_string()]),
    };
    assert_eq!(render(b, RenderOptions::new()), "   \u{1b}[91m??\u{1b}[0m\n\n");
}

#[test]
fn menu_entries_show_where_their_node_begins() {
    let b = TextBlock {
        content: TextBlockContent::Menu(Menu {
            items: vec![
                MenuItem::Entry(MenuEntry {
                    label: Some("Item".to_string()),
                    description: vec!["First words".to_string()],
                    id: top(),
                    trailing_newlines: 0,
                }),
                MenuItem::Entry(MenuEntry {
                    label: None,
                    description: vec![],
                    id: Id {
                        infofile: Some("other".to_string()),
                        nodename: None,
                    },
                    trailing_newlines: 1,
                }),
                MenuItem::Comment(MenuComment {
                    lines: vec!["More".to_string()],
                    trailing_newlines: 0,
                }),
            ],
        }),
    };
    let expected = concat_all(&[
        "\u{1b}[1m* Menu:\u{1b}[0m\n",
        "  Item (\u{1b}[1;34m1G\u{1b}[0m)  First words\n",
        "  (\u{1b}[1;34m??????\u{1b}[0m)   \n",
        "\n",
        "  More\n",
        "\n",
    ]);
    assert_eq!(render(b, RenderOptions::new()), expected);
}

fn concat_all(parts: &[&str]) -> String {
    let mut s = String::new();
    for p in parts {
        s.push_str(p);
    }
    s
}

#[test]
fn index_entries_show_their_node() {
    let b = TextBlock {
        content: TextBlockContent::Printindex(Printindex {
            entries: vec![
                IndexEntry {
                    text: "foo".to_string(),
                    node: top(),
                    line: 3,
                },
                IndexEntry {
                    text: "bar".to_string(),
                    node: Id {
                        infofile: Some("x".to_string()),
                        nodename: None,
                    },
                    line: 4,
                },
            ],
        }),
    };
    let expected = concat_all(&[
        " \u{1b}[1m* Index:\n\u{1b}[0m\n",
        "   \u{1b}[4mfoo\u{1b}[0m: Top (1G)\n",
        "   \u{1b}[4mbar\u{1b}[0m: (\u{1b}[1;34m??????\u{1b}[0m)\n",
        "\n",
    ]);
    assert_eq!(render(b, RenderOptions::new().indented(1)), expected);
}

#[test]
fn table_entry_title_then_description_further_in() {
    let b = TextBlock {
        content: TextBlockContent::TableEntry(TableEntry {
            title: "-v".to_string(),
            description: vec![TextBlock {
                content: TextBlockContent::Paragraph(Paragraph {
                    lines: vec!["verbose".to_string()],
                }),
            }],
        }),
    };
    assert_eq!(
        render(b, RenderOptions::new()),
        "\u{1b}[36m-v\u{1b}[0m\n     verbose\n\n"
    );
    let empty = TextBlock {
        content: TextBlockContent::TableEntry(TableEntry {
            title: "-q".to_string(),
            description: vec![],
        }),
    };
    assert_eq!(render(empty, RenderOptions::new()), "\u{1b}[36m-q\u{1b}[0m\n\n");
}

#[test]
fn blocks_that_need_more_columns_than_are_left_are_not_written() {
    let b = TextBlock {
        content: TextBlockContent::Verbatim(Verbatim {
            lines: vec!["x".to_string()],
        }),
    };
    let mut s = String::new();
    let narrow = RenderOptions::new_for_terminal((5, 24));
    assert!(!render_text_block(&b, &mut s, narrow, &top_at_line_one()));
    let mut s = String::new();
    let wide_enough = RenderOptions::new_for_terminal((6, 24));
    assert!(render_text_block(&b, &mut s, wide_enough, &top_at_line_one()));
    assert_eq!(s, "     \u{1b}[32mx\u{1b}[0m\n\n");
}

#[test]
fn count_newlines_of_what_is_written() {
    let mut w = CountNewlines::new();
    assert_eq!(w.count(), 0);
    assert!(w.write("a\nb\n\n"));
    assert_eq!(w.count(), 3);
    assert!(w.write("no newline"));
    assert_eq!(w.count(), 3);
}

#[test]
fn line_end_takes_words_while_they_fit() {
    let widths: Vec<usize> = vec![3, 2, 1, 4];
    assert_eq!(line_end(&widths, 0, 7), Some(2));
    assert_eq!(line_end(&widths, 2, 7), Some(4));
    assert_eq!(line_end(&widths, 3, 2), Some(4));
    assert_eq!(line_end(&vec![0, 5, 5], 0, 5), Some(2));
    assert_eq!(line_end(&vec![usize::MAX, 1], 0, 5), None);
}

#[test]
fn stretch_spreads_the_spaces() {
    let ws = words(&["a", "b", "c"]);
    assert_eq!(
        stretch(&ws, &vec![1, 1, 1], 8),
        Some("a   b  c".to_string())
    );
    assert_eq!(stretch(&ws, &vec![3, 3, 3], 8), None);
    assert_eq!(
        stretch(&words(&["only"]), &vec![4], 2),
        Some("only".to_string())
    );
}

#[test]
fn menu_pads_ids_to_the_widest_given_width() {
    let menu = Menu {
        items: vec![
            MenuItem::Entry(MenuEntry {
                label: Some("A".to_string()),
                description: vec![],
                id: top(),
                trailing_newlines: 0,
            }),
            MenuItem::Entry(MenuEntry {
                label: Some("B".to_string()),
                description: vec!["x".to_string()],
                id: Id {
                    infofile: Some("f".to_string()),
                    nodename: None,
                },
                trailing_newlines: 0,
            }),
        ],
    };
    let mut s = String::new();
    assert!(menu.render_with_id_widths(&mut s, RenderOptions::new(), &top_at_line_one(), &vec![2, 6]));
    let expected = concat_all(&[
        "\u{1b}[1m* Menu:\u{1b}[0m\n",
        "  A (\u{1b}[1;34m1G\u{1b}[0m)      \n",
        "  B (\u{1b}[1;34m??????\u{1b}[0m)  x\n",
        "\n",
    ]);
    assert_eq!(s, expected);
}

#[test]
fn stretched_lines_keep_the_words() {
    let ws = words(&["one", "two", "three", "four", "five", "six", "seven"]);
    let lines = flow(ws.clone(), 12, true);
    assert_eq!(lines[0], "one      two");
    assert_eq!(lines_into_words(&lines), ws);
}

#[test]
fn rendered_paragraph_keeps_the_words() {
    let source = vec!["  Some   words\tof a".to_string(), "paragraph, here.".to_string()];
    let b = TextBlock {
        content: TextBlockContent::Paragraph(Paragraph {
            lines: source.clone(),
        }),
    };
    let out = render(b, RenderOptions::new_for_terminal((11, 24)));
    let out_lines: Vec<String> = out.lines().map(|l| l.to_string()).collect();
    assert_eq!(lines_into_words(&out_lines), lines_into_words(&source));
}

#[test]
fn flowing_lines_are_no_more_than_the_words() {
    let ws = words(&["a", "bb", "ccc", "dddd", "eeeee"]);
    for max in 0..12 {
        let lines = flow(ws.clone(), max, true);
        assert!(lines.len() <= ws.len());
        assert_eq!(lines_into_words(&lines), ws);
    }
}

fn flow(ws: Vec<String>, max: usize, full: bool) -> Vec<String> {
    flowing_lines(ws, max, full).expect("the words fit")
}

#[test]
fn flowing_lines_refuse_widths_that_overflow() {
    // a stretched line whose first word is 0 wide takes a second word that does not fit
    assert_eq!(flowing_lines(words(&["", "abc", "def"]), 3, true), None);
    assert_eq!(flowing_lines(words(&["", "abc", "def"]), 3, false), Some(words(&[" abc", "def"])));
}
