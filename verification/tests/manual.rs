use mr::config::{InfoSettings, PagerSettings, SearchPath, Settings};
use mr::info::parse::{index_entry_at, node_at, nonsplit_info_file, Fail, ParseError};
use mr::info::render::RenderError;
use mr::info::search::{dir_file_entries, search_manual, Lookup, ManualPath};
use mr::info::{read_nonsplit_manual, try_read_nonsplit_manual, Id, Tag, TagTable, TagTableEntry};
use mr::pager::{pager_command, replace_all_str};
use mr::{Manual, RenderOptions};

const ONE_NODE: &str = "Intro\n\x1f\nFile: a.info,  Node: Top,  Up: (dir)\n\nHello world.\n";

const WITH_MENU: &str =
    "Intro\n\x1f\nFile: a.info,  Node: Top,  Up: (dir)\n\nHello world.\n\n* Menu:\n\n* Top::\n";

const DIR: &str = "This is the dir file.\n\x1f\nFile: dir,\tNode: Top\tThe top\n\n* Menu:\n\nTexts\n* Emacs: (emacs).            The editor.\n* Sed: (sed)Overview.        The stream editor.\n* emacs: (emacs2)Intro.      Another one.\n";

#[test]
fn default_settings() {
    let s = Settings::default();
    assert_eq!(s.ui.pager.cmd, vec!["less".to_string(), "-FXR".to_string()]);
    assert_eq!(s.ui.pager.start_line_arg, Some("+{}G".to_string()));
    assert_eq!(
        s.info.paths(),
        &vec![
            SearchPath::Immediate,
            SearchPath::DirFile("/usr/share/info/dir".to_string()),
            SearchPath::DirsFromEnv("INFOPATH".to_string()),
            SearchPath::Dir("/usr/share/info".to_string()),
        ]
    );
}

#[test]
fn search_follows_the_settings_and_skips_environment_paths() {
    let plan = search_manual(&InfoSettings::default(), "sed");
    assert_eq!(
        plan,
        vec![
            Lookup::Immediate {
                query: "sed".to_string()
            },
            Lookup::DirFile {
                dir_file: "/usr/share/info/dir".to_string(),
                query: "sed".to_string()
            },
            Lookup::Dir {
                dir: "/usr/share/info".to_string(),
                query: "sed".to_string()
            },
        ]
    );
    let only_dir = InfoSettings::new(vec![SearchPath::Dir("/x".to_string())]);
    assert_eq!(
        search_manual(&only_dir, "q"),
        vec![Lookup::Dir {
            dir: "/x".to_string(),
            query: "q".to_string()
        }]
    );
    assert_eq!(search_manual(&InfoSettings::new(vec![]), "q"), vec![]);
}

#[test]
fn dir_file_entries_match_labels_ignoring_ascii_case() {
    let dir = read_nonsplit_manual(DIR).expect("dir file parses");
    assert_eq!(
        dir_file_entries(&dir, "EMACS"),
        vec![
            ("emacs".to_string(), None),
            ("emacs2".to_string(), Some("Intro".to_string())),
        ]
    );
    assert_eq!(
        dir_file_entries(&dir, "sed"),
        vec![("sed".to_string(), Some("Overview".to_string()))]
    );
    assert_eq!(dir_file_entries(&dir, "awk"), vec![]);
    let no_menu = read_nonsplit_manual(ONE_NODE).expect("parses");
    assert_eq!(dir_file_entries(&no_menu, "emacs"), vec![]);
}

#[test]
fn manual_path_keeps_file_and_start_node() {
    let p = ManualPath::new("/usr/share/info/sed.info".to_string(), None);
    assert_eq!(p.file(), "/usr/share/info/sed.info");
    assert_eq!(p.start_node(), None);
    let p = p.with_start_node(Some("Overview".to_string()));
    assert_eq!(p.start_node(), Some("Overview"));
    assert_eq!(p.file(), "/usr/share/info/sed.info");
}

#[test]
fn pager_command_adds_the_start_line() {
    let pager = PagerSettings::default();
    assert_eq!(
        pager_command(&pager, Some(42)),
        vec!["less".to_string(), "-FXR".to_string(), "+42G".to_string()]
    );
    assert_eq!(
        pager_command(&pager, None),
        vec!["less".to_string(), "-FXR".to_string()]
    );
    let no_arg = PagerSettings {
        cmd: vec!["more".to_string()],
        start_line_arg: None,
    };
    assert_eq!(pager_command(&no_arg, Some(3)), vec!["more".to_string()]);
}

#[test]
fn replace_all_replaces_each_occurrence() {
    assert_eq!(replace_all_str("+{}G{}", "{}", "7"), "+7G7");
    assert_eq!(replace_all_str("{{}}", "{}", "x"), "{x}");
    assert_eq!(replace_all_str("aaa", "aa", "b"), "ba");
    assert_eq!(replace_all_str("none", "{}", "x"), "none");
    assert_eq!(replace_all_str("", "{}", "x"), "");
}

#[test]
fn one_node_manual() {
    let m = read_nonsplit_manual(ONE_NODE).expect("parses");
    assert_eq!(m.title(), "a.info");
    assert_eq!(m.nodes().len(), 1);
    assert_eq!(
        m.nodes()[0].node,
        Id {
            infofile: None,
            nodename: Some("Top".to_string())
        }
    );
    assert_eq!(
        m.nodes()[0].up,
        Some(Id {
            infofile: Some("dir".to_string()),
            nodename: None
        })
    );
    let mut out = String::new();
    assert_eq!(m.render(&mut out, RenderOptions::new()), Ok(()));
    assert_eq!(out, "       Hello world.\n\n");
    assert_eq!(m.start_line_for(RenderOptions::new(), "Top"), Ok(Some(1)));
    assert_eq!(m.start_line_for(RenderOptions::new(), "Other"), Ok(None));
}

#[test]
fn menu_refers_to_the_line_of_its_node() {
    let m = read_nonsplit_manual(WITH_MENU).expect("parses");
    let mut out = String::new();
    assert_eq!(m.render(&mut out, RenderOptions::new()), Ok(()));
    let mut expected = String::from("       Hello world.\n\n");
    expected.push_str("       \u{1b}[1m* Menu:\u{1b}[0m\n");
    expected.push_str("         Top (\u{1b}[1;34m1G\u{1b}[0m)  \n");
    expected.push_str("\n");
    assert_eq!(out, expected);
}

#[test]
fn text_that_is_not_a_manual_is_invalid() {
    assert_eq!(nonsplit_info_file("no separator here").err(), Some(ParseError::Invalid));
    assert!(read_nonsplit_manual("").is_err());
}

#[test]
fn text_after_the_last_node_is_trailing_input() {
    let mut content = String::from(ONE_NODE);
    content.push_str("\n\x1f\njunk");
    assert_eq!(
        nonsplit_info_file(&content).err(),
        Some(ParseError::TrailingInput)
    );
}

#[test]
fn index_entry_ending_in_a_period_and_a_wide_space_stops_reading() {
    let content = "Intro\n\x1f\nFile: a.info,  Node: Top,  Up: (dir)\n\n\0\x08[index\0\x08]\n* Menu:\n\n* foo: Top.\u{3000}\n";
    assert!(try_read_nonsplit_manual(content).is_none());
}

#[test]
fn index_of_a_manual() {
    let content = "Intro\n\x1f\nFile: a.info,  Node: Top,  Up: (dir)\n\n\0\x08[index\0\x08]\n* Menu:\n\n* foo: Top.  (line 3)\n";
    let m = match try_read_nonsplit_manual(content) {
        Some(Ok(m)) => m,
        _ => panic!("index parses"),
    };
    let mut out = String::new();
    assert_eq!(m.render(&mut out, RenderOptions::new()), Ok(()));
    let mut expected = String::from("       \u{1b}[1m* Index:\n\u{1b}[0m\n");
    expected.push_str("         \u{1b}[4mfoo\u{1b}[0m: Top (1G)\n");
    expected.push_str("\n");
    assert_eq!(out, expected);
}

#[test]
fn a_layout_narrower_than_the_node_indentation_is_refused() {
    let m = read_nonsplit_manual(ONE_NODE).expect("parses");
    let narrow = RenderOptions::new_for_terminal((7, 24));
    let mut out = String::new();
    assert_eq!(m.render(&mut out, narrow), Err(RenderError::DoesNotFit));
    assert_eq!(m.start_line_for(narrow, "Top"), Err(RenderError::DoesNotFit));
    let just_enough = RenderOptions::new_for_terminal((8, 24));
    let mut out = String::new();
    assert_eq!(m.render(&mut out, just_enough), Ok(()));
    assert_eq!(out, "       Hello\n       world.\n\n");
}

fn chars(s: &str) -> Vec<char> {
    s.chars().collect()
}

#[test]
fn a_node_fails_softly_without_a_separator_and_hard_on_a_bad_body() {
    let no_separator = chars("File: a,  Node: Top\n\nHello\n");
    assert_eq!(node_at(&no_separator, 0).err(), Some(Fail::Backtrack));
    let unfinished_line = chars("\x1f\nFile: a,  Node: Top\n\nHello");
    assert_eq!(node_at(&unfinished_line, 0).err(), Some(Fail::Cut));
    let entry = chars("* foo: Top.  (line 3)\n");
    let (e, q) = index_entry_at(&entry, 0).expect("entry parses");
    assert_eq!(e.text, "foo");
    assert_eq!(
        e.node,
        Id {
            infofile: None,
            nodename: Some("Top".to_string())
        }
    );
    assert_eq!(e.line, 3);
    assert_eq!(q, entry.len() - 1);
    let wide_space = chars("* foo: Top.\u{3000}\n");
    assert_eq!(index_entry_at(&wide_space, 0).err(), Some(Fail::Abort));
}

const TWO_NODES: &str = "x\x1f\nFile: f,  Node: A,  Next: B\n\n\x1f\nFile: f,  Node: B,  Prev: A\n\n";

#[test]
fn a_file_of_two_nodes_reads_into_two_nodes() {
    let m = read_nonsplit_manual(TWO_NODES).expect("two nodes parse");
    assert_eq!(m.nodes().len(), 2);
    let a = Id {
        infofile: None,
        nodename: Some("A".to_string()),
    };
    let b = Id {
        infofile: None,
        nodename: Some("B".to_string()),
    };
    assert_eq!(m.nodes()[0].node, a);
    assert_eq!(m.nodes()[0].next, Some(b.clone()));
    assert_eq!(m.nodes()[1].node, b);
    assert_eq!(m.nodes()[1].prev, Some(a));
}

#[test]
fn nodes_and_a_tag_table() {
    let content = "Intro\n\x1f\nFile: f,  Node: A,  Next: B\n\nFirst.\n\n* Menu:\n\n* B::\n\x1f\nFile: f,  Node: B,  Prev: A\n\nSecond.\n\x1f\nTag Table:\nNode: A\x7f7\nNode: B\x7f60\n\x1f\nEnd Tag Table\n\n";
    let f = nonsplit_info_file(content).expect("parses");
    assert_eq!(f.nodes.len(), 2);
    assert_eq!(
        f.tag_table,
        Some(TagTable {
            indirect: false,
            entries: vec![
                TagTableEntry::Node(Tag {
                    nodeid: "A".to_string(),
                    bytepos: 7
                }),
                TagTableEntry::Node(Tag {
                    nodeid: "B".to_string(),
                    bytepos: 60
                }),
            ]
        })
    );
    let m = read_nonsplit_manual(content).expect("parses");
    let mut out = String::new();
    assert_eq!(m.render(&mut out, RenderOptions::new()), Ok(()));
    let mut expected = String::from("       First.\n\n");
    expected.push_str("       \u{1b}[1m* Menu:\u{1b}[0m\n");
    expected.push_str("         B (\u{1b}[1;34m6G\u{1b}[0m)  \n");
    expected.push_str("\n");
    expected.push_str("       Second.\n\n");
    assert_eq!(out, expected);
    assert_eq!(m.start_line_for(RenderOptions::new(), "A"), Ok(Some(1)));
    assert_eq!(m.start_line_for(RenderOptions::new(), "B"), Ok(Some(6)));
}

#[test]
fn what_follows_a_node_starts_with_a_separator() {
    let s = chars(TWO_NODES);
    let (first, q) = node_at(&s, 1).expect("first node parses");
    assert_eq!(first.node.nodename, Some("A".to_string()));
    assert_eq!(&s[q..q + 2], &['\x1f', '\n']);
    let (second, r) = node_at(&s, q).expect("second node parses");
    assert_eq!(second.node.nodename, Some("B".to_string()));
    assert_eq!(r, s.len());
}

#[test]
fn a_part_left_over_is_trailing_input_and_no_match_is_invalid() {
    assert_eq!(
        mr::info::parse::paragraph(0, "Line 1\n\nmore\n").err(),
        Some(ParseError::TrailingInput)
    );
    assert_eq!(mr::info::parse::paragraph(0, "\n").err(), Some(ParseError::Invalid));
    assert_eq!(mr::info::parse::menu("* Menu:\n\n* A::\n\n\n   ").err(), Some(ParseError::TrailingInput));
    assert_eq!(mr::info::parse::menu("no menu").err(), Some(ParseError::Invalid));
}
