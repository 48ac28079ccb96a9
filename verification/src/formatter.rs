use vstd::prelude::*;

use crate::scanner::{file_model, file_models, ScanResult, ScannedFile};
use crate::path::{extension_of, file_name_bounds, last_index_of};
use crate::text::{chars_of, trim_end, trim_end_string};
use crate::tree::render_tree_text;

verus! {

/// The language tag of a code block for files with extension `ext`.
pub open spec fn language_for(ext: Seq<char>) -> Seq<char> {
    if ext == "rs"@ {
        "rust"@
    } else if ext == "js"@ || ext == "mjs"@ || ext == "cjs"@ {
        "javascript"@
    } else if ext == "ts"@ || ext == "mts"@ || ext == "cts"@ {
        "typescript"@
    } else if ext == "jsx"@ {
        "jsx"@
    } else if ext == "tsx"@ {
        "tsx"@
    } else if ext == "py"@ {
        "python"@
    } else if ext == "go"@ {
        "go"@
    } else if ext == "c"@ || ext == "h"@ {
        "c"@
    } else if ext == "cpp"@ || ext == "hpp"@ || ext == "cc"@ || ext == "cxx"@ {
        "cpp"@
    } else if ext == "java"@ {
        "java"@
    } else if ext == "kt"@ || ext == "kts"@ {
        "kotlin"@
    } else if ext == "swift"@ {
        "swift"@
    } else if ext == "rb"@ {
        "ruby"@
    } else if ext == "php"@ {
        "php"@
    } else if ext == "cs"@ {
        "csharp"@
    } else if ext == "json"@ {
        "json"@
    } else if ext == "yaml"@ || ext == "yml"@ {
        "yaml"@
    } else if ext == "toml"@ {
        "toml"@
    } else if ext == "md"@ {
        "markdown"@
    } else if ext == "sh"@ || ext == "bash"@ || ext == "zsh"@ {
        "bash"@
    } else if ext == "html"@ || ext == "htm"@ {
        "html"@
    } else if ext == "css"@ || ext == "scss"@ || ext == "sass"@ {
        "css"@
    } else if ext == "sql"@ {
        "sql"@
    } else if ext == "xml"@ || ext == "svg"@ {
        "xml"@
    } else if ext == "proto"@ {
        "protobuf"@
    } else {
        ""@
    }
}

/// The language tag for the file at `path`; empty when the extension is
/// missing or unknown.
pub open spec fn language_of_path(path: Seq<char>) -> Seq<char> {
    match extension_of(path) {
        Some(ext) => language_for(ext),
        None => ""@,
    }
}

/// Whether `v[from..to]` holds the characters of `lit`.
fn eq_str(v: &Vec<char>, from: usize, to: usize, lit: &str) -> (b: bool)
    requires
        from <= to <= v@.len(),
    ensures
        b == (v@.subrange(from as int, to as int) == lit@),
{
    let l = chars_of(lit);
    if to - from != l.len() {
        return false;
    }
    let mut i: usize = 0;
    while i < l.len()
        invariant
            from <= to <= v@.len(),
            to - from == l@.len(),
            l@ == lit@,
            i <= l@.len(),
            forall|j: int| 0 <= j < i ==> v@[from + j] == l@[j],
        decreases l@.len() - i,
    {
        if v[from + i] != l[i] {
            assert(v@.subrange(from as int, to as int)[i as int] != lit@[i as int]);
            return false;
        }
        i = i + 1;
    }
    assert(v@.subrange(from as int, to as int) =~= lit@);
    true
}

/// The language tag for the extension `ext[from..to]`.
fn language_for_chars(ext: &Vec<char>, from: usize, to: usize) -> (r: &'static str)
    requires
        from <= to <= ext@.len(),
    ensures
        r@ == language_for(ext@.subrange(from as int, to as int)),
{
    if eq_str(ext, from, to, "rs") {
        "rust"
    } else if eq_str(ext, from, to, "js") || eq_str(ext, from, to, "mjs") || eq_str(ext, from, to, "cjs") {
        "javascript"
    } else if eq_str(ext, from, to, "ts") || eq_str(ext, from, to, "mts") || eq_str(ext, from, to, "cts") {
        "typescript"
    } else if eq_str(ext, from, to, "jsx") {
        "jsx"
    } else if eq_str(ext, from, to, "tsx") {
        "tsx"
    } else if eq_str(ext, from, to, "py") {
        "python"
    } else if eq_str(ext, from, to, "go") {
        "go"
    } else if eq_str(ext, from, to, "c") || eq_str(ext, from, to, "h") {
        "c"
    } else if eq_str(ext, from, to, "cpp") || eq_str(ext, from, to, "hpp") || eq_str(ext, from, to, "cc") || eq_str(ext, from, to, "cxx") {
        "cpp"
    } else if eq_str(ext, from, to, "java") {
        "java"
    } else if eq_str(ext, from, to, "kt") || eq_str(ext, from, to, "kts") {
        "kotlin"
    } else if eq_str(ext, from, to, "swift") {
        "swift"
    } else if eq_str(ext, from, to, "rb") {
        "ruby"
    } else if eq_str(ext, from, to, "php") {
        "php"
    } else if eq_str(ext, from, to, "cs") {
        "csharp"
    } else if eq_str(ext, from, to, "json") {
        "json"
    } else if eq_str(ext, from, to, "yaml") || eq_str(ext, from, to, "yml") {
        "yaml"
    } else if eq_str(ext, from, to, "toml") {
        "toml"
    } else if eq_str(ext, from, to, "md") {
        "markdown"
    } else if eq_str(ext, from, to, "sh") || eq_str(ext, from, to, "bash") || eq_str(ext, from, to, "zsh") {
        "bash"
    } else if eq_str(ext, from, to, "html") || eq_str(ext, from, to, "htm") {
        "html"
    } else if eq_str(ext, from, to, "css") || eq_str(ext, from, to, "scss") || eq_str(ext, from, to, "sass") {
        "css"
    } else if eq_str(ext, from, to, "sql") {
        "sql"
    } else if eq_str(ext, from, to, "xml") || eq_str(ext, from, to, "svg") {
        "xml"
    } else if eq_str(ext, from, to, "proto") {
        "protobuf"
    } else {
        ""
    }
}

/// The language tag of each known extension, and none for any other: a law
/// for every extension, over every extension text `e`.
pub proof fn lemma_language_for_law(e: Seq<char>)
    ensures
        (e == "rs"@) ==> language_for(e) == "rust"@,
        (e == "js"@ || e == "mjs"@ || e == "cjs"@) ==> language_for(e) == "javascript"@,
        (e == "ts"@ || e == "mts"@ || e == "cts"@) ==> language_for(e) == "typescript"@,
        (e == "jsx"@) ==> language_for(e) == "jsx"@,
        (e == "tsx"@) ==> language_for(e) == "tsx"@,
        (e == "py"@) ==> language_for(e) == "python"@,
        (e == "go"@) ==> language_for(e) == "go"@,
        (e == "c"@ || e == "h"@) ==> language_for(e) == "c"@,
        (e == "cpp"@ || e == "hpp"@ || e == "cc"@ || e == "cxx"@) ==> language_for(e) == "cpp"@,
        (e == "java"@) ==> language_for(e) == "java"@,
        (e == "kt"@ || e == "kts"@) ==> language_for(e) == "kotlin"@,
        (e == "swift"@) ==> language_for(e) == "swift"@,
        (e == "rb"@) ==> language_for(e) == "ruby"@,
        (e == "php"@) ==> language_for(e) == "php"@,
        (e == "cs"@) ==> language_for(e) == "csharp"@,
        (e == "json"@) ==> language_for(e) == "json"@,
        (e == "yaml"@ || e == "yml"@) ==> language_for(e) == "yaml"@,
        (e == "toml"@) ==> language_for(e) == "toml"@,
        (e == "md"@) ==> language_for(e) == "markdown"@,
        (e == "sh"@ || e == "bash"@ || e == "zsh"@) ==> language_for(e) == "bash"@,
        (e == "html"@ || e == "htm"@) ==> language_for(e) == "html"@,
        (e == "css"@ || e == "scss"@ || e == "sass"@) ==> language_for(e) == "css"@,
        (e == "sql"@) ==> language_for(e) == "sql"@,
        (e == "xml"@ || e == "svg"@) ==> language_for(e) == "xml"@,
        (e == "proto"@) ==> language_for(e) == "protobuf"@,
        (e != "rs"@ && e != "js"@ && e != "mjs"@ && e != "cjs"@ && e != "ts"@ && e != "mts"@ && e != "cts"@ && e != "jsx"@ && e != "tsx"@ && e != "py"@ && e != "go"@ && e != "c"@ && e != "h"@ && e != "cpp"@ && e != "hpp"@ && e != "cc"@ && e != "cxx"@ && e != "java"@ && e != "kt"@ && e != "kts"@ && e != "swift"@ && e != "rb"@ && e != "php"@ && e != "cs"@ && e != "json"@ && e != "yaml"@ && e != "yml"@ && e != "toml"@ && e != "md"@ && e != "sh"@ && e != "bash"@ && e != "zsh"@ && e != "html"@ && e != "htm"@ && e != "css"@ && e != "scss"@ && e != "sass"@ && e != "sql"@ && e != "xml"@ && e != "svg"@ && e != "proto"@) ==> language_for(e) == Seq::<char>::empty(),
{
    reveal_strlit("rust");
    reveal_strlit("rs");
    reveal_strlit("javascript");
    reveal_strlit("js");
    reveal_strlit("mjs");
    reveal_strlit("cjs");
    reveal_strlit("typescript");
    reveal_strlit("ts");
    reveal_strlit("mts");
    reveal_strlit("cts");
    reveal_strlit("jsx");
    reveal_strlit("tsx");
    reveal_strlit("python");
    reveal_strlit("py");
    reveal_strlit("go");
    reveal_strlit("c");
    reveal_strlit("h");
    reveal_strlit("cpp");
    reveal_strlit("hpp");
    reveal_strlit("cc");
    reveal_strlit("cxx");
    reveal_strlit("java");
    reveal_strlit("kotlin");
    reveal_strlit("kt");
    reveal_strlit("kts");
    reveal_strlit("swift");
    reveal_strlit("ruby");
    reveal_strlit("rb");
    reveal_strlit("php");
    reveal_strlit("csharp");
    reveal_strlit("cs");
    reveal_strlit("json");
    reveal_strlit("yaml");
    reveal_strlit("yml");
    reveal_strlit("toml");
    reveal_strlit("markdown");
    reveal_strlit("md");
    reveal_strlit("bash");
    reveal_strlit("sh");
    reveal_strlit("zsh");
    reveal_strlit("html");
    reveal_strlit("htm");
    reveal_strlit("css");
    reveal_strlit("scss");
    reveal_strlit("sass");
    reveal_strlit("sql");
    reveal_strlit("xml");
    reveal_strlit("svg");
    reveal_strlit("protobuf");
    reveal_strlit("proto");
    reveal_strlit("");
    assert("rust"@.len() == 4 && "rust"@[0] == 'r' && "rust"@[1] == 'u' && "rust"@[2] == 's' && "rust"@[3] == 't');
    assert("rs"@.len() == 2 && "rs"@[0] == 'r' && "rs"@[1] == 's');
    assert("javascript"@.len() == 10 && "javascript"@[0] == 'j' && "javascript"@[1] == 'a' && "javascript"@[2] == 'v' && "javascript"@[3] == 'a' && "javascript"@[4] == 's' && "javascript"@[5] == 'c' && "javascript"@[6] == 'r' && "javascript"@[7] == 'i' && "javascript"@[8] == 'p' && "javascript"@[9] == 't');
    assert("js"@.len() == 2 && "js"@[0] == 'j' && "js"@[1] == 's');
    assert("mjs"@.len() == 3 && "mjs"@[0] == 'm' && "mjs"@[1] == 'j' && "mjs"@[2] == 's');
    assert("cjs"@.len() == 3 && "cjs"@[0] == 'c' && "cjs"@[1] == 'j' && "cjs"@[2] == 's');
    assert("typescript"@.len() == 10 && "typescript"@[0] == 't' && "typescript"@[1] == 'y' && "typescript"@[2] == 'p' && "typescript"@[3] == 'e' && "typescript"@[4] == 's' && "typescript"@[5] == 'c' && "typescript"@[6] == 'r' && "typescript"@[7] == 'i' && "typescript"@[8] == 'p' && "typescript"@[9] == 't');
    assert("ts"@.len() == 2 && "ts"@[0] == 't' && "ts"@[1] == 's');
    assert("mts"@.len() == 3 && "mts"@[0] == 'm' && "mts"@[1] == 't' && "mts"@[2] == 's');
    assert("cts"@.len() == 3 && "cts"@[0] == 'c' && "cts"@[1] == 't' && "cts"@[2] == 's');
    assert("jsx"@.len() == 3 && "jsx"@[0] == 'j' && "jsx"@[1] == 's' && "jsx"@[2] == 'x');
    assert("tsx"@.len() == 3 && "tsx"@[0] == 't' && "tsx"@[1] == 's' && "tsx"@[2] == 'x');
    assert("python"@.len() == 6 && "python"@[0] == 'p' && "python"@[1] == 'y' && "python"@[2] == 't' && "python"@[3] == 'h' && "python"@[4] == 'o' && "python"@[5] == 'n');
    assert("py"@.len() == 2 && "py"@[0] == 'p' && "py"@[1] == 'y');
    assert("go"@.len() == 2 && "go"@[0] == 'g' && "go"@[1] == 'o');
    assert("c"@.len() == 1 && "c"@[0] == 'c');
    assert("h"@.len() == 1 && "h"@[0] == 'h');
    assert("cpp"@.len() == 3 && "cpp"@[0] == 'c' && "cpp"@[1] == 'p' && "cpp"@[2] == 'p');
    assert("hpp"@.len() == 3 && "hpp"@[0] == 'h' && "hpp"@[1] == 'p' && "hpp"@[2] == 'p');
    assert("cc"@.len() == 2 && "cc"@[0] == 'c' && "cc"@[1] == 'c');
    assert("cxx"@.len() == 3 && "cxx"@[0] == 'c' && "cxx"@[1] == 'x' && "cxx"@[2] == 'x');
    assert("java"@.len() == 4 && "java"@[0] == 'j' && "java"@[1] == 'a' && "java"@[2] == 'v' && "java"@[3] == 'a');
    assert("kotlin"@.len() == 6 && "kotlin"@[0] == 'k' && "kotlin"@[1] == 'o' && "kotlin"@[2] == 't' && "kotlin"@[3] == 'l' && "kotlin"@[4] == 'i' && "kotlin"@[5] == 'n');
    assert("kt"@.len() == 2 && "kt"@[0] == 'k' && "kt"@[1] == 't');
    assert("kts"@.len() == 3 && "kts"@[0] == 'k' && "kts"@[1] == 't' && "kts"@[2] == 's');
    assert("swift"@.len() == 5 && "swift"@[0] == 's' && "swift"@[1] == 'w' && "swift"@[2] == 'i' && "swift"@[3] == 'f' && "swift"@[4] == 't');
    assert("ruby"@.len() == 4 && "ruby"@[0] == 'r' && "ruby"@[1] == 'u' && "ruby"@[2] == 'b' && "ruby"@[3] == 'y');
    assert("rb"@.len() == 2 && "rb"@[0] == 'r' && "rb"@[1] == 'b');
    assert("php"@.len() == 3 && "php"@[0] == 'p' && "php"@[1] == 'h' && "php"@[2] == 'p');
    assert("csharp"@.len() == 6 && "csharp"@[0] == 'c' && "csharp"@[1] == 's' && "csharp"@[2] == 'h' && "csharp"@[3] == 'a' && "csharp"@[4] == 'r' && "csharp"@[5] == 'p');
    assert("cs"@.len() == 2 && "cs"@[0] == 'c' && "cs"@[1] == 's');
    assert("json"@.len() == 4 && "json"@[0] == 'j' && "json"@[1] == 's' && "json"@[2] == 'o' && "json"@[3] == 'n');
    assert("yaml"@.len() == 4 && "yaml"@[0] == 'y' && "yaml"@[1] == 'a' && "yaml"@[2] == 'm' && "yaml"@[3] == 'l');
    assert("yml"@.len() == 3 && "yml"@[0] == 'y' && "yml"@[1] == 'm' && "yml"@[2] == 'l');
    assert("toml"@.len() == 4 && "toml"@[0] == 't' && "toml"@[1] == 'o' && "toml"@[2] == 'm' && "toml"@[3] == 'l');
    assert("markdown"@.len() == 8 && "markdown"@[0] == 'm' && "markdown"@[1] == 'a' && "markdown"@[2] == 'r' && "markdown"@[3] == 'k' && "markdown"@[4] == 'd' && "markdown"@[5] == 'o' && "markdown"@[6] == 'w' && "markdown"@[7] == 'n');
    assert("md"@.len() == 2 && "md"@[0] == 'm' && "md"@[1] == 'd');
    assert("bash"@.len() == 4 && "bash"@[0] == 'b' && "bash"@[1] == 'a' && "bash"@[2] == 's' && "bash"@[3] == 'h');
    assert("sh"@.len() == 2 && "sh"@[0] == 's' && "sh"@[1] == 'h');
    assert("zsh"@.len() == 3 && "zsh"@[0] == 'z' && "zsh"@[1] == 's' && "zsh"@[2] == 'h');
    assert("html"@.len() == 4 && "html"@[0] == 'h' && "html"@[1] == 't' && "html"@[2] == 'm' && "html"@[3] == 'l');
    assert("htm"@.len() == 3 && "htm"@[0] == 'h' && "htm"@[1] == 't' && "htm"@[2] == 'm');
    assert("css"@.len() == 3 && "css"@[0] == 'c' && "css"@[1] == 's' && "css"@[2] == 's');
    assert("scss"@.len() == 4 && "scss"@[0] == 's' && "scss"@[1] == 'c' && "scss"@[2] == 's' && "scss"@[3] == 's');
    assert("sass"@.len() == 4 && "sass"@[0] == 's' && "sass"@[1] == 'a' && "sass"@[2] == 's' && "sass"@[3] == 's');
    assert("sql"@.len() == 3 && "sql"@[0] == 's' && "sql"@[1] == 'q' && "sql"@[2] == 'l');
    assert("xml"@.len() == 3 && "xml"@[0] == 'x' && "xml"@[1] == 'm' && "xml"@[2] == 'l');
    assert("svg"@.len() == 3 && "svg"@[0] == 's' && "svg"@[1] == 'v' && "svg"@[2] == 'g');
    assert("protobuf"@.len() == 8 && "protobuf"@[0] == 'p' && "protobuf"@[1] == 'r' && "protobuf"@[2] == 'o' && "protobuf"@[3] == 't' && "protobuf"@[4] == 'o' && "protobuf"@[5] == 'b' && "protobuf"@[6] == 'u' && "protobuf"@[7] == 'f');
    assert("proto"@.len() == 5 && "proto"@[0] == 'p' && "proto"@[1] == 'r' && "proto"@[2] == 'o' && "proto"@[3] == 't' && "proto"@[4] == 'o');
}

/// The language of a file is the tag of its extension: a path whose
/// extension is `ts`, `mts` or `cts` is TypeScript, one whose extension is
/// `js`, `mjs` or `cjs` is JavaScript, and so on for every known extension;
/// a path without an extension has no language.
pub proof fn lemma_language_of_path_law(p: Seq<char>)
    ensures
        extension_of(p) is None ==> language_of_path(p) == Seq::<char>::empty(),
        extension_of(p) matches Some(e) ==> language_of_path(p) == language_for(e),
{
    reveal_strlit("");
}

/// The language of a file for its code block, found from its extension;
/// empty when there is none or it is not known.
pub fn detect_language(path: &str) -> (r: &'static str)
    ensures
        r@ == language_of_path(path@),
{
    let v = chars_of(path);
    match file_name_bounds(&v) {
        None => "",
        Some((s, e)) => {
            let ghost name = v@.subrange(s as int, e as int);
            // Find the last `.` of the name.
            let mut d = e;
            assert(name.take(e - s) == name);
            while d > s && v[d - 1] != '.'
                invariant
                    s <= d <= e <= v@.len(),
                    name == v@.subrange(s as int, e as int),
                    last_index_of(name, '.') == last_index_of(name.take(d - s), '.'),
                decreases d,
            {
                assert(name.take(d - s).drop_last() == name.take(d - s - 1));
                d = d - 1;
            }
            if d <= s + 1 {
                return "";
            }
            assert(name.skip(d - s) == v@.subrange(d as int, e as int));
            language_for_chars(&v, d, e)
        },
    }
}

/// A rough count of the tokens in `text`: one for every four bytes.
pub fn estimate_tokens(text: &str) -> (r: usize)
    ensures
        r == vstd::utf8::encode_utf8(text@).len() as usize / 4,
{
    text.len() / 4
}

// ---------------------------------------------------------------------------
// The bundle
// ---------------------------------------------------------------------------

/// The section of the bundle for one file: its path, then its text in a code
/// block tagged with its language, or a note that it was skipped.
pub open spec fn file_section(f: ScannedFile) -> Seq<char> {
    match f.content {
        Some(text) => "# File: "@ + f.rel_path@ + "\n```"@ + language_of_path(f.rel_path@) + "\n"@
            + trim_end(text@) + "\n```\n\n"@,
        None => "# File: "@ + f.rel_path@ + " (binary or skipped)\n```\n<skipped>\n```\n\n"@,
    }
}

/// The sections of the files `fs`, in order.
pub open spec fn files_text(fs: Seq<ScannedFile>) -> Seq<char>
    decreases fs.len(),
{
    if fs.len() == 0 {
        Seq::empty()
    } else {
        files_text(fs.drop_last()) + file_section(fs.last())
    }
}

/// The whole bundle: the drawn tree of the repository, then every file.
pub open spec fn bundle_text(r: ScanResult) -> Seq<char> {
    "## Repository Structure\n\n```\n"@ + render_tree_text(r.root_node@) + "```\n\n"@
        + "## Files\n\n"@ + files_text(r.files@)
}

/// Writes the scanned repository as one Markdown text: its structure, then
/// the contents of every file.
pub fn format_bundle(scan_result: &ScanResult) -> (output: String)
    ensures
        output@ == bundle_text(*scan_result),
{
    let mut output = String::new();
    output.append("## Repository Structure\n\n```\n");
    let tree_str = scan_result.root_node.render_tree();
    output.append(tree_str.as_str());
    output.append("```\n\n");
    output.append("## Files\n\n");
    let ghost head = output@;
    let files = &scan_result.files;
    let n = files.len();
    for i in 0..n
        invariant
            n == files@.len(),
            files == &scan_result.files,
            output@ == head + files_text(files@.take(i as int)),
    {
        let scanned = &files[i];
        let path_display = scanned.rel_path.as_str();
        let lang = detect_language(path_display);
        match &scanned.content {
            Some(text) => {
                output.append("# File: ");
                output.append(path_display);
                output.append("\n```");
                output.append(lang);
                output.append("\n");
                let trimmed = trim_end_string(text.as_str());
                output.append(trimmed.as_str());
                output.append("\n```\n\n");
            },
            None => {
                output.append("# File: ");
                output.append(path_display);
                output.append(" (binary or skipped)\n```\n<skipped>\n```\n\n");
            },
        }
        assert(files@.take(i + 1).drop_last() == files@.take(i as int));
    }
    assert(files@.take(n as int) == files@);
    output
}


/// The sections of files depend only on their paths and texts.
proof fn lemma_files_text_of_models(fs1: Seq<ScannedFile>, fs2: Seq<ScannedFile>)
    requires
        file_models(fs1) == file_models(fs2),
    ensures
        files_text(fs1) == files_text(fs2),
    decreases fs1.len(),
{
    assert(file_models(fs1).len() == fs1.len() && file_models(fs2).len() == fs2.len());
    if fs1.len() > 0 {
        assert(file_models(fs1.drop_last()) =~= file_models(fs1).drop_last());
        assert(file_models(fs2.drop_last()) =~= file_models(fs2).drop_last());
        lemma_files_text_of_models(fs1.drop_last(), fs2.drop_last());
        let a = fs1.last();
        let b = fs2.last();
        assert(file_model(a) == file_models(fs1)[fs1.len() - 1]);
        assert(file_model(b) == file_models(fs2)[fs2.len() - 1]);
        assert(file_section(a) == file_section(b));
    }
}

/// The bundle depends only on the model of the tree and on the paths and
/// texts of the files.
pub proof fn lemma_bundle_text_of_models(r1: ScanResult, r2: ScanResult)
    requires
        r1.root_node@ == r2.root_node@,
        file_models(r1.files@) == file_models(r2.files@),
    ensures
        bundle_text(r1) == bundle_text(r2),
{
    lemma_files_text_of_models(r1.files@, r2.files@);
}

/// Whether `t` stands in `s` at index `k`.
pub open spec fn occurs_at(s: Seq<char>, k: int, t: Seq<char>) -> bool {
    0 <= k && k + t.len() <= s.len() && s.subrange(k, k + t.len()) == t
}

/// The sections of the first `j` files begin the sections of all of them.
proof fn lemma_files_text_prefix(fs: Seq<ScannedFile>, j: int)
    requires
        0 <= j <= fs.len(),
    ensures
        occurs_at(files_text(fs), 0, files_text(fs.take(j))),
    decreases fs.len(),
{
    if j == fs.len() {
        assert(fs.take(j) =~= fs);
        assert(files_text(fs).subrange(0, files_text(fs).len() as int) =~= files_text(fs));
    } else {
        assert(fs.drop_last().take(j) =~= fs.take(j));
        lemma_files_text_prefix(fs.drop_last(), j);
        let a = files_text(fs.drop_last());
        let t = files_text(fs.take(j));
        assert((a + file_section(fs.last())).subrange(0, t.len() as int) =~= a.subrange(
            0,
            t.len() as int,
        ));
    }
}

/// The bundle begins with the heading of the repository structure and the
/// drawn tree, and for every file it holds, after the heading of the files,
/// `# File: ` and the file's whole relative path, then its text in a code
/// block tagged with its language, or the note that it was skipped; the
/// sections come in the order of the files.
pub proof fn lemma_bundle_shows_every_file(r: ScanResult)
    ensures
        ({
            let b = bundle_text(r);
            let head = "## Repository Structure\n\n```\n"@ + render_tree_text(r.root_node@)
                + "```\n\n"@ + "## Files\n\n"@;
            &&& occurs_at(b, 0, head)
            &&& forall|i: int|
                0 <= i < r.files@.len() && r.files@[i].content is Some ==> exists|k: int|
                    head.len() <= k && #[trigger] occurs_at(
                        b,
                        k,
                        "# File: "@ + r.files@[i].rel_path@ + "\n```"@ + language_of_path(
                            r.files@[i].rel_path@,
                        ) + "\n"@ + trim_end(r.files@[i].content->0@) + "\n```\n\n"@,
                    )
            &&& forall|i: int|
                0 <= i < r.files@.len() && r.files@[i].content is None ==> exists|k: int|
                    head.len() <= k && #[trigger] occurs_at(
                        b,
                        k,
                        "# File: "@ + r.files@[i].rel_path@
                            + " (binary or skipped)\n```\n<skipped>\n```\n\n"@,
                    )
            &&& forall|i: int, j: int|
                0 <= i < j < r.files@.len() ==> offset_of_file(r, i) + file_section(r.files@[i]).len()
                    <= offset_of_file(r, j)
            &&& forall|i: int|
                0 <= i < r.files@.len() ==> #[trigger] occurs_at(
                    b,
                    offset_of_file(r, i),
                    file_section(r.files@[i]),
                )
        }),
{
    let b = bundle_text(r);
    let head = "## Repository Structure\n\n```\n"@ + render_tree_text(r.root_node@) + "```\n\n"@
        + "## Files\n\n"@;
    let fs = r.files@;
    assert(b == head + files_text(fs));
    assert(b.subrange(0, head.len() as int) =~= head);
    assert forall|i: int| 0 <= i < fs.len() implies #[trigger] occurs_at(
        b,
        offset_of_file(r, i),
        file_section(fs[i]),
    ) by {
        lemma_section_in_bundle(r, i);
    }
    assert forall|i: int, j: int| 0 <= i < j < fs.len() implies offset_of_file(r, i)
        + file_section(fs[i]).len() <= offset_of_file(r, j) by {
        lemma_files_text_prefix(fs.take(j), i + 1);
        assert(fs.take(j).take(i + 1) =~= fs.take(i + 1));
        assert(fs.take(i + 1).drop_last() =~= fs.take(i));
    }
    assert forall|i: int| 0 <= i < fs.len() && fs[i].content is Some implies exists|k: int|
        head.len() <= k && #[trigger] occurs_at(
            b,
            k,
            "# File: "@ + fs[i].rel_path@ + "\n```"@ + language_of_path(fs[i].rel_path@) + "\n"@
                + trim_end(fs[i].content->0@) + "\n```\n\n"@,
        ) by {
        lemma_section_in_bundle(r, i);
        let k = offset_of_file(r, i);
        assert(occurs_at(b, k, file_section(fs[i])));
    }
    assert forall|i: int| 0 <= i < fs.len() && fs[i].content is None implies exists|k: int|
        head.len() <= k && #[trigger] occurs_at(
            b,
            k,
            "# File: "@ + fs[i].rel_path@ + " (binary or skipped)\n```\n<skipped>\n```\n\n"@,
        ) by {
        lemma_section_in_bundle(r, i);
        let k = offset_of_file(r, i);
        assert(occurs_at(b, k, file_section(fs[i])));
    }
}

/// Where the section of the file at index `i` begins in the bundle.
pub open spec fn offset_of_file(r: ScanResult, i: int) -> int {
    ("## Repository Structure\n\n```\n"@ + render_tree_text(r.root_node@) + "```\n\n"@
        + "## Files\n\n"@).len() as int + files_text(r.files@.take(i)).len() as int
}

/// The section of the file at index `i` stands in the bundle where it begins.
proof fn lemma_section_in_bundle(r: ScanResult, i: int)
    requires
        0 <= i < r.files@.len(),
    ensures
        occurs_at(bundle_text(r), offset_of_file(r, i), file_section(r.files@[i])),
        offset_of_file(r, i) >= ("## Repository Structure\n\n```\n"@ + render_tree_text(
            r.root_node@,
        ) + "```\n\n"@ + "## Files\n\n"@).len(),
{
    let fs = r.files@;
    let head = "## Repository Structure\n\n```\n"@ + render_tree_text(r.root_node@) + "```\n\n"@
        + "## Files\n\n"@;
    let b = bundle_text(r);
    lemma_files_text_prefix(fs, i + 1);
    assert(fs.take(i + 1).drop_last() =~= fs.take(i));
    assert(fs.take(i + 1).last() == fs[i]);
    let pre = files_text(fs.take(i));
    let sec = file_section(fs[i]);
    let ft = files_text(fs);
    let p = pre.len() as int;
    let q = p + sec.len() as int;
    let h = head.len() as int;
    assert(files_text(fs.take(i + 1)) == pre + sec);
    assert(ft.subrange(0, (pre + sec).len() as int) == pre + sec);
    assert(ft.subrange(p, q) =~= (pre + sec).subrange(p, q));
    assert((pre + sec).subrange(p, q) =~= sec);
    assert(b == head + ft);
    assert(b.subrange(h + p, h + q) =~= ft.subrange(p, q));
}

} // verus!
