//! Finding a manual from what the user asked for.
use vstd::prelude::*;

use crate::config::{InfoSettings, SearchPath, SpecSearchPath};
use crate::info::{
    Menu, MenuItem, NonsplitManual, SpecBlock, SpecMenuItem, SpecNode, TextBlockContent,
    block_view, blocks_view, lemma_blocks_view_len,
};
use crate::text::chars_of;

verus! {

broadcast use vstd::string::group_string_axioms;

/// A manual that was found: its file, and the node to start at.
#[derive(Debug, Clone, PartialEq, Eq)]
pub struct ManualPath {
    file: String,
    start_node: Option<String>,
}

impl ManualPath {
    pub closed spec fn file_view(&self) -> Seq<char> {
        self.file@
    }

    pub closed spec fn start_node_view(&self) -> Option<Seq<char>> {
        self.start_node.deep_view()
    }

    pub fn new(file: String, start_node: Option<String>) -> (r: Self)
        ensures
            r.file_view() == file@,
            r.start_node_view() == start_node.deep_view(),
    {
        ManualPath { file, start_node }
    }

    /// The same file, to be started at `start_node`.
    pub fn with_start_node(self, start_node: Option<String>) -> (r: Self)
        ensures
            r.file_view() == self.file_view(),
            r.start_node_view() == start_node.deep_view(),
    {
        ManualPath { file: self.file, start_node }
    }

    pub fn file(&self) -> (r: &str)
        ensures
            r@ == self.file_view(),
    {
        self.file.as_str()
    }

    pub fn start_node(&self) -> (r: Option<&str>)
        ensures
            match r {
                Some(n) => self.start_node_view() == Some(n@),
                None => self.start_node_view() is None,
            },
    {
        match &self.start_node {
            Some(n) => Some(n.as_str()),
            None => None,
        }
    }
}

/// A place to look for the manual `query`.
#[derive(Debug, Clone, PartialEq, Eq)]
pub enum Lookup {
    /// the file `query` itself
    Immediate { query: String },
    /// the entries of the `dir` file `dir_file` labelled `query`
    DirFile { dir_file: String, query: String },
    /// the file `query` with an `.info` or `.info.gz` extension in `dir`
    Dir { dir: String, query: String },
}

pub enum SpecLookup {
    Immediate { query: Seq<char> },
    DirFile { dir_file: Seq<char>, query: Seq<char> },
    Dir { dir: Seq<char>, query: Seq<char> },
}

impl DeepView for Lookup {
    type V = SpecLookup;

    open spec fn deep_view(&self) -> SpecLookup {
        match self {
            Lookup::Immediate { query } => SpecLookup::Immediate { query: query@ },
            Lookup::DirFile { dir_file, query } => SpecLookup::DirFile { dir_file: dir_file@, query: query@ },
            Lookup::Dir { dir, query } => SpecLookup::Dir { dir: dir@, query: query@ },
        }
    }
}

/// Where to look for `query`, one search path after the other. The directories of an
/// environment variable are not searched.
pub open spec fn search_plan(paths: Seq<SpecSearchPath>, query: Seq<char>) -> Seq<SpecLookup>
    decreases paths.len(),
{
    if paths.len() == 0 {
        Seq::empty()
    } else {
        let rest = search_plan(paths.drop_last(), query);
        match paths.last() {
            SpecSearchPath::Immediate => rest.push(SpecLookup::Immediate { query }),
            SpecSearchPath::DirFile(p) => rest.push(SpecLookup::DirFile { dir_file: p, query }),
            SpecSearchPath::DirsFromEnv(_) => rest,
            SpecSearchPath::Dir(p) => rest.push(SpecLookup::Dir { dir: p, query }),
        }
    }
}

/// Where to look for the manual `query`, in the order of the settings.
pub fn search_manual(settings: &InfoSettings, query: &str) -> (r: Vec<Lookup>)
    ensures
        r.deep_view() == search_plan(settings.paths_view(), query@),
{
    let paths = settings.paths();
    let ghost pv = paths.deep_view();
    let mut r: Vec<Lookup> = Vec::new();
    let mut k: usize = 0;
    assert(pv.take(0) =~= Seq::<SpecSearchPath>::empty());
    assert(r.deep_view() =~= Seq::<SpecLookup>::empty());
    while k < paths.len()
        invariant
            k <= paths@.len(),
            pv == paths.deep_view(),
            pv == settings.paths_view(),
            r.deep_view() == search_plan(pv.take(k as int), query@),
        decreases paths@.len() - k,
    {
        assert(pv.take(k + 1).drop_last() =~= pv.take(k as int));
        let ghost old_r = r.deep_view();
        match &paths[k] {
            SearchPath::Immediate => {
                r.push(Lookup::Immediate { query: query.to_owned() });
            },
            SearchPath::DirFile(p) => {
                r.push(Lookup::DirFile { dir_file: p.clone(), query: query.to_owned() });
            },
            SearchPath::DirsFromEnv(_) => {},
            SearchPath::Dir(p) => {
                r.push(Lookup::Dir { dir: p.clone(), query: query.to_owned() });
            },
        }
        assert(r.deep_view() =~= search_plan(pv.take(k + 1), query@));
        k = k + 1;
    }
    assert(pv.take(k as int) =~= pv);
    r
}

/// The first menu among the text blocks.
pub open spec fn menu_in_blocks(bs: Seq<SpecBlock>) -> Option<Seq<SpecMenuItem>>
    decreases bs.len(),
{
    if bs.len() == 0 {
        None
    } else {
        match bs[0] {
            SpecBlock::Menu(items) => Some(items),
            _ => menu_in_blocks(bs.drop_first()),
        }
    }
}

/// The first menu of the nodes, in the order of the file.
pub open spec fn first_menu(nodes: Seq<SpecNode>) -> Option<Seq<SpecMenuItem>>
    decreases nodes.len(),
{
    if nodes.len() == 0 {
        None
    } else {
        match menu_in_blocks(nodes[0].general_text) {
            Some(m) => Some(m),
            None => first_menu(nodes.drop_first()),
        }
    }
}

/// `c` in lower case, where it is an ASCII letter.
pub open spec fn ascii_lower(c: char) -> char {
    if 'A' <= c <= 'Z' {
        ((c as u32) + 32) as char
    } else {
        c
    }
}

/// Whether `a` and `b` are the same but for the case of ASCII letters.
pub open spec fn eq_ignore_ascii_case(a: Seq<char>, b: Seq<char>) -> bool {
    a.len() == b.len() && forall|i: int| 0 <= i < a.len() ==> ascii_lower(a[i]) == ascii_lower(b[i])
}

fn lower(c: char) -> (r: char)
    ensures
        r == ascii_lower(c),
{
    if 'A' <= c && c <= 'Z' {
        ((c as u32) + 32) as u8 as char
    } else {
        c
    }
}

/// Whether `a` and `b` are the same but for the case of ASCII letters.
pub fn same_ignoring_ascii_case(a: &str, b: &str) -> (r: bool)
    ensures
        r == eq_ignore_ascii_case(a@, b@),
{
    let x = chars_of(a);
    let y = chars_of(b);
    if x.len() != y.len() {
        return false;
    }
    let mut i: usize = 0;
    while i < x.len()
        invariant
            x@ == a@,
            y@ == b@,
            x@.len() == y@.len(),
            i <= x@.len(),
            forall|j: int| 0 <= j < i ==> ascii_lower(x@[j]) == ascii_lower(y@[j]),
        decreases x@.len() - i,
    {
        if lower(x[i]) != lower(y[i]) {
            return false;
        }
        i = i + 1;
    }
    true
}

/// The entries of a `dir` menu labelled `query` (ignoring the case of ASCII letters) that name
/// a manual: that manual and the node in it.
pub open spec fn dir_matches(items: Seq<SpecMenuItem>, query: Seq<char>) -> Seq<(Seq<char>, Option<Seq<char>>)>
    decreases items.len(),
{
    if items.len() == 0 {
        Seq::empty()
    } else {
        let rest = dir_matches(items.drop_last(), query);
        match items.last() {
            SpecMenuItem::Entry(e) => match (e.label, e.id.infofile) {
                (Some(label), Some(infofile)) => if eq_ignore_ascii_case(label, query) {
                    rest.push((infofile, e.id.nodename))
                } else {
                    rest
                },
                _ => rest,
            },
            SpecMenuItem::Comment(_) => rest,
        }
    }
}

/// What a `dir` menu lists under a query does not depend on the case of its ASCII letters.
pub proof fn law_dir_matches_ignore_case(items: Seq<SpecMenuItem>, q1: Seq<char>, q2: Seq<char>)
    requires
        eq_ignore_ascii_case(q1, q2),
    ensures
        dir_matches(items, q1) == dir_matches(items, q2),
    decreases items.len(),
{
    if items.len() > 0 {
        law_dir_matches_ignore_case(items.drop_last(), q1, q2);
        match items.last() {
            SpecMenuItem::Entry(e) => match (e.label, e.id.infofile) {
                (Some(label), Some(_)) => {
                    assert(eq_ignore_ascii_case(label, q1) == eq_ignore_ascii_case(label, q2)) by {
                        if eq_ignore_ascii_case(label, q1) {
                            assert forall|i: int| 0 <= i < label.len() implies ascii_lower(label[i]) == ascii_lower(q2[i]) by {
                                assert(ascii_lower(q1[i]) == ascii_lower(q2[i]));
                            }
                        }
                        if eq_ignore_ascii_case(label, q2) {
                            assert forall|i: int| 0 <= i < label.len() implies ascii_lower(label[i]) == ascii_lower(q1[i]) by {
                                assert(ascii_lower(q1[i]) == ascii_lower(q2[i]));
                            }
                        }
                    }
                },
                _ => {},
            },
            SpecMenuItem::Comment(_) => {},
        }
    }
}

fn first_menu_of(manual: &NonsplitManual) -> (r: Option<&Menu>)
    ensures
        match r {
            Some(m) => first_menu(manual.deep_view().nodes) == Some(m.items.deep_view()),
            None => first_menu(manual.deep_view().nodes) is None,
        },
{
    let nodes = manual.nodes();
    let ghost nv = nodes.deep_view();
    let mut k: usize = 0;
    assert(nv.skip(0) =~= nv);
    while k < nodes.len()
        invariant
            k <= nodes@.len(),
            nv == nodes.deep_view(),
            nv == manual.deep_view().nodes,
            first_menu(nv) == first_menu(nv.skip(k as int)),
        decreases nodes@.len() - k,
    {
        let blocks = &nodes[k].general_text;
        let ghost bv = blocks_view(blocks@);
        proof {
            lemma_blocks_view_len(blocks@);
            assert(nv.skip(k as int)[0] == nodes@[k as int].deep_view());
        }
        let mut j: usize = 0;
        assert(bv.skip(0) =~= bv);
        while j < blocks.len()
            invariant
                j <= blocks@.len(),
                bv == blocks_view(blocks@),
                bv.len() == blocks@.len(),
                forall|i: int| 0 <= i < blocks@.len() ==> bv[i] == block_view(#[trigger] blocks@[i]),
                menu_in_blocks(bv) == menu_in_blocks(bv.skip(j as int)),
                k < nv.len(),
                nv == manual.deep_view().nodes,
                first_menu(nv) == first_menu(nv.skip(k as int)),
                nv.skip(k as int)[0].general_text == bv,
            decreases blocks@.len() - j,
        {
            assert(bv.skip(j as int)[0] == block_view(blocks@[j as int]));
            match &blocks[j].content {
                TextBlockContent::Menu(m) => {
                    return Some(m);
                },
                _ => {},
            }
            assert(bv.skip(j as int).drop_first() =~= bv.skip(j + 1));
            j = j + 1;
        }
        assert(bv.skip(j as int) =~= Seq::<SpecBlock>::empty());
        assert(nv.skip(k as int).drop_first() =~= nv.skip(k + 1));
        k = k + 1;
    }
    assert(nv.skip(k as int) =~= Seq::<SpecNode>::empty());
    None
}

/// The manuals that the first menu of a `dir` file lists under `query`, in its order: each
/// as the name of its file and the node to start at.
pub fn dir_file_entries(manual: &NonsplitManual, query: &str) -> (r: Vec<(String, Option<String>)>)
    ensures
        match first_menu(manual.deep_view().nodes) {
            Some(items) => r.deep_view() == dir_matches(items, query@),
            None => r@.len() == 0,
        },
{
    let mut r: Vec<(String, Option<String>)> = Vec::new();
    let menu = match first_menu_of(manual) {
        Some(m) => m,
        None => return r,
    };
    let ghost iv = menu.items.deep_view();
    let mut k: usize = 0;
    assert(iv.take(0) =~= Seq::<SpecMenuItem>::empty());
    assert(r.deep_view() =~= Seq::<(Seq<char>, Option<Seq<char>>)>::empty());
    while k < menu.items.len()
        invariant
            k <= menu.items@.len(),
            iv == menu.items.deep_view(),
            r.deep_view() == dir_matches(iv.take(k as int), query@),
        decreases menu.items@.len() - k,
    {
        assert(iv.take(k + 1).drop_last() =~= iv.take(k as int));
        let ghost old_r = r.deep_view();
        match &menu.items[k] {
            MenuItem::Entry(entry) => {
                if let Some(label) = &entry.label {
                    if let Some(infofile) = &entry.id.infofile {
                        if same_ignoring_ascii_case(label.as_str(), query) {
                            let node = match &entry.id.nodename {
                                Some(n) => Some(n.clone()),
                                None => None,
                            };
                            r.push((infofile.clone(), node));
                        }
                    }
                }
            },
            MenuItem::Comment(_) => {},
        }
        assert(r.deep_view() =~= dir_matches(iv.take(k + 1), query@));
        k = k + 1;
    }
    assert(iv.take(k as int) =~= iv);
    r
}

/// The menu found among text blocks is the first block that is a menu, whatever blocks come
/// before it; where no block is a menu, none is found.
pub proof fn law_first_menu_in_blocks(bs: Seq<SpecBlock>, i: int)
    requires
        0 <= i < bs.len(),
        bs[i] is Menu,
        forall|j: int| 0 <= j < i ==> !(#[trigger] bs[j] is Menu),
    ensures
        menu_in_blocks(bs) == Some(bs[i]->Menu_0),
    decreases i,
{
    if i > 0 {
        assert(!(bs[0] is Menu));
        assert forall|j: int| 0 <= j < i - 1 implies !(#[trigger] bs.drop_first()[j] is Menu) by {
            assert(bs.drop_first()[j] == bs[j + 1]);
        }
        law_first_menu_in_blocks(bs.drop_first(), i - 1);
    }
}

/// Where no text block is a menu, no menu is found among them.
pub proof fn law_no_menu_in_blocks(bs: Seq<SpecBlock>)
    requires
        forall|j: int| 0 <= j < bs.len() ==> !(#[trigger] bs[j] is Menu),
    ensures
        menu_in_blocks(bs) is None,
    decreases bs.len(),
{
    if bs.len() > 0 {
        assert(!(bs[0] is Menu));
        assert forall|j: int| 0 <= j < bs.len() - 1 implies !(#[trigger] bs.drop_first()[j] is Menu) by {
            assert(bs.drop_first()[j] == bs[j + 1]);
        }
        law_no_menu_in_blocks(bs.drop_first());
    }
}

/// The menu of a `dir` file is the first menu of its nodes, in order: the first menu among the
/// text blocks of node `k`, when the nodes before it have no menu at all.
pub proof fn law_first_menu_of_nodes(nodes: Seq<SpecNode>, k: int, i: int)
    requires
        0 <= k < nodes.len(),
        forall|j: int| 0 <= j < k ==> menu_in_blocks(#[trigger] nodes[j].general_text) is None,
        0 <= i < nodes[k].general_text.len(),
        nodes[k].general_text[i] is Menu,
        forall|j: int| 0 <= j < i ==> !(#[trigger] nodes[k].general_text[j] is Menu),
    ensures
        first_menu(nodes) == Some(nodes[k].general_text[i]->Menu_0),
    decreases k,
{
    if k > 0 {
        assert(menu_in_blocks(nodes[0].general_text) is None);
        assert forall|j: int| 0 <= j < k - 1 implies menu_in_blocks(#[trigger] nodes.drop_first()[j].general_text) is None by {
            assert(nodes.drop_first()[j] == nodes[j + 1]);
        }
        assert(nodes.drop_first()[k - 1] == nodes[k]);
        law_first_menu_of_nodes(nodes.drop_first(), k - 1, i);
    } else {
        law_first_menu_in_blocks(nodes[0].general_text, i);
    }
}

} // verus!
