//! Settings of the reader.
use vstd::prelude::*;

verus! {

broadcast use vstd::string::group_string_axioms;

/// All settings.
#[derive(Debug)]
pub struct Settings {
    pub ui: UiSettings,
    pub info: InfoSettings,
}

impl Default for Settings {
    fn default() -> (r: Self)
        ensures
            r.ui.pager.cmd.deep_view() == seq!["less"@, "-FXR"@],
            r.ui.pager.start_line_arg.deep_view() == Some("+{}G"@),
            r.info.paths_view() == default_search_paths(),
    {
        Settings { ui: UiSettings::default(), info: InfoSettings::default() }
    }
}

/// Settings of the user interface.
#[derive(Debug)]
pub struct UiSettings {
    pub pager: PagerSettings,
}

impl Default for UiSettings {
    fn default() -> (r: Self)
        ensures
            r.pager.cmd.deep_view() == seq!["less"@, "-FXR"@],
            r.pager.start_line_arg.deep_view() == Some("+{}G"@),
    {
        UiSettings { pager: PagerSettings::default() }
    }
}

/// The pager that output goes through: its command line, and the argument that makes it
/// start at a line (`{}` stands for the line).
#[derive(Debug)]
pub struct PagerSettings {
    pub cmd: Vec<String>,
    pub start_line_arg: Option<String>,
}

impl Default for PagerSettings {
    fn default() -> (r: Self)
        ensures
            r.cmd.deep_view() == seq!["less"@, "-FXR"@],
            r.start_line_arg.deep_view() == Some("+{}G"@),
    {
        let mut cmd: Vec<String> = Vec::new();
        cmd.push("less".to_owned());
        cmd.push("-FXR".to_owned());
        assert(cmd.deep_view() =~= seq!["less"@, "-FXR"@]);
        Self { cmd, start_line_arg: Some("+{}G".to_owned()) }
    }
}

/// Where manuals are looked for.
#[derive(Debug, Clone, PartialEq, Eq)]
pub enum SearchPath {
    /// the query itself, as a path
    Immediate,
    /// the menu of a `dir` file
    DirFile(String),
    /// the directories that an environment variable lists
    DirsFromEnv(String),
    /// a directory
    Dir(String),
}

/// The model of a search path.
pub enum SpecSearchPath {
    Immediate,
    DirFile(Seq<char>),
    DirsFromEnv(Seq<char>),
    Dir(Seq<char>),
}

impl DeepView for SearchPath {
    type V = SpecSearchPath;

    open spec fn deep_view(&self) -> SpecSearchPath {
        match self {
            SearchPath::Immediate => SpecSearchPath::Immediate,
            SearchPath::DirFile(p) => SpecSearchPath::DirFile(p@),
            SearchPath::DirsFromEnv(v) => SpecSearchPath::DirsFromEnv(v@),
            SearchPath::Dir(p) => SpecSearchPath::Dir(p@),
        }
    }
}

/// Where manuals are looked for by default, in this order.
pub open spec fn default_search_paths() -> Seq<SpecSearchPath> {
    seq![
        SpecSearchPath::Immediate,
        SpecSearchPath::DirFile("/usr/share/info/dir"@),
        SpecSearchPath::DirsFromEnv("INFOPATH"@),
        SpecSearchPath::Dir("/usr/share/info"@),
    ]
}

/// Settings of the search for manuals.
#[derive(Debug)]
pub struct InfoSettings {
    paths: Vec<SearchPath>,
}

impl InfoSettings {
    /// Settings that search `paths`, in this order.
    pub fn new(paths: Vec<SearchPath>) -> (r: Self)
        ensures
            r.paths_view() == paths.deep_view(),
    {
        InfoSettings { paths }
    }

    pub closed spec fn paths_view(&self) -> Seq<SpecSearchPath> {
        self.paths.deep_view()
    }

    /// Where manuals are looked for, in this order.
    pub fn paths(&self) -> (r: &Vec<SearchPath>)
        ensures
            r.deep_view() == self.paths_view(),
    {
        &self.paths
    }
}

impl Default for InfoSettings {
    fn default() -> (r: Self)
        ensures
            r.paths_view() == default_search_paths(),
    {
        let mut paths: Vec<SearchPath> = Vec::new();
        paths.push(SearchPath::Immediate);
        paths.push(SearchPath::DirFile("/usr/share/info/dir".to_owned()));
        paths.push(SearchPath::DirsFromEnv("INFOPATH".to_owned()));
        paths.push(SearchPath::Dir("/usr/share/info".to_owned()));
        assert(paths.deep_view() =~= default_search_paths());
        Self { paths }
    }
}

} // verus!
