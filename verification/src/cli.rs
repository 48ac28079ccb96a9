use vstd::prelude::*;

verus! {

/// The form of the bundle.
#[derive(Clone, Copy, Debug, PartialEq, Eq)]
pub enum OutputFormat {
    Markdown,
    Xml,
    Json,
}

impl Default for OutputFormat {
    fn default() -> (r: Self)
        ensures
            r == OutputFormat::Markdown,
    {
        OutputFormat::Markdown
    }
}

/// The options of a run.
pub struct Cli {
    /// Target directory or file path to scan
    pub path: String,
    /// Output format (markdown, xml, json); the bundle is written as
    /// Markdown whichever is given
    pub format: OutputFormat,
    /// Write output to a specific file
    pub output: Option<String>,
    /// Print output to stdout
    pub stdout: bool,
    /// Skip copying output to system clipboard
    pub no_clipboard: bool,
    /// Also scan hidden files and directories (dotfiles)
    pub hidden: bool,
    /// Do not respect ignore files (.gitignore, .ignore, etc.)
    pub no_ignore: bool,
    /// Maximum file size in kilobytes to read (0 = unlimited)
    pub max_size_kb: u64,
    /// Keep only files matching these glob patterns
    pub include_globs: Option<Vec<String>>,
    /// Exclude files matching these glob patterns
    pub exclude_globs: Option<Vec<String>>,
    /// Maximum directory recursion depth
    pub max_depth: Option<usize>,
    /// Filter to only files changed according to git diff (a ref, `HEAD` when none is given)
    pub diff: Option<String>,
    /// Suppress diagnostic status messages
    pub quiet: bool,
}

impl Cli {
    /// The largest file, in bytes, whose contents go into the bundle; 0 means
    /// no limit. A limit in kilobytes too large for a byte count in a `u64`
    /// gives `u64::MAX`, which no file size exceeds.
    pub fn max_bytes(&self) -> (r: u64)
        ensures
            r == if self.max_size_kb * 1024 <= u64::MAX {
                self.max_size_kb * 1024
            } else {
                u64::MAX as int
            },
    {
        if self.max_size_kb <= u64::MAX / 1024 {
            self.max_size_kb * 1024
        } else {
            u64::MAX
        }
    }

    /// Whether the bundle goes to standard output: when asked for, or when it
    /// went neither to the clipboard nor to a file.
    pub fn prints_to_stdout(&self, copied_to_clipboard: bool) -> (r: bool)
        ensures
            r == (self.stdout || (!copied_to_clipboard && self.output is None)),
    {
        self.stdout || (!copied_to_clipboard && self.output.is_none())
    }
}

} // verus!
