//! Source languages: detection from a file path, and the per-language
//! settings that drive the comment walk.

use vstd::prelude::*;

use crate::text::str_eq;

verus! {

/// The source languages that comments can be read from.
#[derive(Clone, Copy, Debug, PartialEq, Eq, Structural)]
pub enum Languages {
    Astro,
    Bash,
    Css,
    Docker,
    Go,
    Hcl,
    Html,
    Javascript,
    Lua,
    Nix,
    Make,
    Python,
    Rust,
    Sql,
    Toml,
    Tsx,
    Typescript,
    Yaml,
}

/// Settings of one language for the comment walk. Some languages embed
/// source of another language (Astro embeds TypeScript in its front matter):
/// a leaf of kind `in_source_node_kind` whose previous sibling has kind
/// `in_source_node_kind_prefix` holds such source, to be read with each of
/// `in_source_languages`.
pub struct LanguageConfig {
    pub in_source_languages: Vec<Languages>,
    pub in_source_node_kind: &'static str,
    pub in_source_node_kind_prefix: &'static str,
}

/// The languages embedded in the given language's source.
pub open spec fn spec_in_source_languages(lang: Languages) -> Seq<Languages> {
    if lang == Languages::Astro {
        seq![Languages::Typescript]
    } else {
        seq![]
    }
}

/// Returns the walk settings of a language.
pub fn get_language_config(lang: Languages) -> (config: LanguageConfig)
    ensures
        config.in_source_languages@ == spec_in_source_languages(lang),
        lang == Languages::Astro ==> config.in_source_node_kind@ == "raw_text"@
            && config.in_source_node_kind_prefix@ == "---"@,
        lang != Languages::Astro ==> config.in_source_node_kind@ == ""@
            && config.in_source_node_kind_prefix@ == ""@,
{
    match lang {
        Languages::Astro => {
            let mut in_source_languages: Vec<Languages> = Vec::new();
            in_source_languages.push(Languages::Typescript);
            proof {
                assert(in_source_languages@ =~= seq![Languages::Typescript]);
            }
            LanguageConfig {
                in_source_languages,
                in_source_node_kind: "raw_text",
                in_source_node_kind_prefix: "---",
            }
        },
        _ => {
            let in_source_languages: Vec<Languages> = Vec::new();
            proof {
                assert(in_source_languages@ =~= Seq::<Languages>::empty());
            }
            LanguageConfig { in_source_languages, in_source_node_kind: "", in_source_node_kind_prefix: "" }
        },
    }
}

/// Names what `std::path::Path::file_name` gives for a path: its final
/// component, or nothing when the path ends in `..` or has no component.
pub uninterp spec fn spec_path_file_name(path: Seq<char>) -> Option<Seq<char>>;

/// Calls `std::path::Path::file_name` on `path`. The contract only ties the
/// result to the path through `spec_path_file_name`; which component std
/// picks is not restated here.
#[verifier::external_body]
fn path_file_name(path: &str) -> (name: Option<&str>)
    ensures
        match name {
            Some(n) => spec_path_file_name(path@) == Some(n@),
            None => spec_path_file_name(path@) is None,
        },
{
    match std::path::Path::new(path).file_name() {
        Some(n) => n.to_str(),
        None => None,
    }
}

/// Index of the last `c` in `s`, or -1 when there is none.
pub open spec fn last_index_of(s: Seq<char>, c: char) -> int
    decreases s.len(),
{
    if s.len() == 0 {
        -1
    } else if s.last() == c {
        s.len() - 1
    } else {
        last_index_of(s.drop_last(), c)
    }
}

/// `last_index_of` is the position of a `c` after which no `c` follows.
proof fn lemma_last_index_of(s: Seq<char>, c: char, k: int)
    requires
        -1 <= k < s.len(),
        k >= 0 ==> s[k] == c,
        forall|j: int| k < j < s.len() ==> s[j] != c,
    ensures
        last_index_of(s, c) == k,
    decreases s.len(),
{
    if s.len() > 0 && s.last() != c {
        lemma_last_index_of(s.drop_last(), c, k);
    }
}

/// The extension of a file name as std's `Path::extension` documents it:
/// nothing for `..`, for a name without a `.`, or for a name whose only `.`
/// is its first character; otherwise the part after the last `.`.
pub open spec fn spec_extension(name: Seq<char>) -> Option<Seq<char>> {
    let k = last_index_of(name, '.');
    if name == seq!['.', '.'] || k <= 0 {
        None
    } else {
        Some(name.subrange(k + 1, name.len() as int))
    }
}

/// The extension of a file name (see `spec_extension`).
pub fn file_extension(name: &str) -> (ext: Option<&str>)
    ensures
        match ext {
            Some(e) => spec_extension(name@) == Some(e@),
            None => spec_extension(name@) is None,
        },
{
    let n = name.unicode_len();
    if n == 2 && name.get_char(0) == '.' && name.get_char(1) == '.' {
        assert(name@ =~= seq!['.', '.']);
        return None;
    }
    assert(name@ != seq!['.', '.']) by {
        if name@ == seq!['.', '.'] {
            assert(name@[0] == '.' && name@[1] == '.');
        }
    }
    let mut i: usize = n;
    while i > 0
        invariant
            n == name@.len(),
            name@ != seq!['.', '.'],
            i <= n,
            forall|j: int| i <= j < n ==> name@[j] != '.',
        decreases i,
    {
        if name.get_char(i - 1) == '.' {
            let k = i - 1;
            proof {
                lemma_last_index_of(name@, '.', k as int);
            }
            if k == 0 {
                return None;
            }
            return Some(name.substring_char(i, n));
        }
        i = i - 1;
    }
    proof {
        lemma_last_index_of(name@, '.', -1);
    }
    None
}

/// The text that decides the language of a file: the extension of its name,
/// or, where that is missing or empty, the whole file name.
pub open spec fn spec_detection_key(name: Option<Seq<char>>) -> Seq<char> {
    let ext = match name {
        Some(n) => match spec_extension(n) {
            Some(e) => e,
            None => Seq::empty(),
        },
        None => Seq::empty(),
    };
    if ext.len() == 0 {
        match name {
            Some(n) => n,
            None => Seq::empty(),
        }
    } else {
        ext
    }
}

/// Law: the detection key of a file name with a non-empty extension is that
/// extension, the text after the last `.` of the name (where that `.` is
/// neither the first nor the last character), however many other `.` come
/// before it.
pub proof fn law_detection_key_is_last_extension(name: Seq<char>, k: int)
    requires
        0 < k < name.len() - 1,
        name[k] == '.',
        forall|j: int| k < j < name.len() ==> name[j] != '.',
    ensures
        spec_detection_key(Some(name)) == name.subrange(k + 1, name.len() as int),
{
    lemma_last_index_of(name, '.', k);
    assert(name != seq!['.', '.']) by {
        if name == seq!['.', '.'] {
            assert(name.len() == 2);
        }
    }
    assert(name.subrange(k + 1, name.len() as int).len() > 0);
}

/// Law: a file name with no `.` after its first character (such as
/// `Makefile` or `.bashrc`) has no extension, and is its own detection key;
/// a path without a file name has the empty key.
pub proof fn law_detection_key_without_dot(name: Seq<char>)
    requires
        forall|j: int| 1 <= j < name.len() ==> name[j] != '.',
    ensures
        spec_detection_key(Some(name)) == name,
        spec_detection_key(None) == Seq::<char>::empty(),
{
    if name.len() > 0 && name[0] == '.' {
        lemma_last_index_of(name, '.', 0);
    } else {
        lemma_last_index_of(name, '.', -1);
    }
}

/// Law: a file name that ends in `.` (such as `notes.` or `..`) has an
/// empty extension or none, and is its own detection key.
pub proof fn law_detection_key_of_name_ending_in_dot(name: Seq<char>)
    requires
        name.len() > 0,
        name[name.len() - 1] == '.',
    ensures
        spec_detection_key(Some(name)) == name,
{
    lemma_last_index_of(name, '.', name.len() - 1);
    assert(name.subrange(name.len() as int, name.len() as int).len() == 0);
}

/// The language that a detection key stands for.
pub open spec fn spec_language_for_key(key: Seq<char>) -> Option<Languages> {
    if key == "astro"@ {
        Some(Languages::Astro)
    } else if key == "sh"@ {
        Some(Languages::Bash)
    } else if key == "css"@ {
        Some(Languages::Css)
    } else if key == "go"@ {
        Some(Languages::Go)
    } else if key == "html"@ {
        Some(Languages::Html)
    } else if key == "js"@ || key == "jsx"@ {
        Some(Languages::Javascript)
    } else if key == "lua"@ {
        Some(Languages::Lua)
    } else if key == "nix"@ {
        Some(Languages::Nix)
    } else if key == "toml"@ {
        Some(Languages::Toml)
    } else if key == "ts"@ {
        Some(Languages::Typescript)
    } else if key == "tsx"@ {
        Some(Languages::Tsx)
    } else if key == "py"@ {
        Some(Languages::Python)
    } else if key == "rs"@ {
        Some(Languages::Rust)
    } else if key == "sql"@ {
        Some(Languages::Sql)
    } else if key == "tf"@ {
        Some(Languages::Hcl)
    } else if key == "yaml"@ || key == "yml"@ {
        Some(Languages::Yaml)
    } else if key == "Dockerfile"@ {
        Some(Languages::Docker)
    } else if key == "Makefile"@ {
        Some(Languages::Make)
    } else {
        None
    }
}

/// The language of a detection key (an extension, or a whole file name).
pub fn language_for_key(key: &str) -> (lang: Option<Languages>)
    ensures
        lang == spec_language_for_key(key@),
{
    if str_eq(key, "astro") {
        Some(Languages::Astro)
    } else if str_eq(key, "sh") {
        Some(Languages::Bash)
    } else if str_eq(key, "css") {
        Some(Languages::Css)
    } else if str_eq(key, "go") {
        Some(Languages::Go)
    } else if str_eq(key, "html") {
        Some(Languages::Html)
    } else if str_eq(key, "js") || str_eq(key, "jsx") {
        Some(Languages::Javascript)
    } else if str_eq(key, "lua") {
        Some(Languages::Lua)
    } else if str_eq(key, "nix") {
        Some(Languages::Nix)
    } else if str_eq(key, "toml") {
        Some(Languages::Toml)
    } else if str_eq(key, "ts") {
        Some(Languages::Typescript)
    } else if str_eq(key, "tsx") {
        Some(Languages::Tsx)
    } else if str_eq(key, "py") {
        Some(Languages::Python)
    } else if str_eq(key, "rs") {
        Some(Languages::Rust)
    } else if str_eq(key, "sql") {
        Some(Languages::Sql)
    } else if str_eq(key, "tf") {
        Some(Languages::Hcl)
    } else if str_eq(key, "yaml") || str_eq(key, "yml") {
        Some(Languages::Yaml)
    } else if str_eq(key, "Dockerfile") {
        Some(Languages::Docker)
    } else if str_eq(key, "Makefile") {
        Some(Languages::Make)
    } else {
        None
    }
}

/// The view of an optional borrowed string.
pub open spec fn opt_str_view(s: Option<&str>) -> Option<Seq<char>> {
    match s {
        Some(v) => Some(v@),
        None => None,
    }
}

/// The language of a file, given the file name that `Path::file_name`
/// returned for its path.
pub fn language_from_file_name(name: Option<&str>) -> (lang: Option<Languages>)
    ensures
        lang == spec_language_for_key(spec_detection_key(opt_str_view(name))),
{
    proof {
        reveal_strlit("");
    }
    let key: &str = match name {
        Some(n) => {
            let ext: &str = match file_extension(n) {
                Some(e) => e,
                None => "",
            };
            if ext.unicode_len() == 0 {
                n
            } else {
                ext
            }
        },
        None => "",
    };
    assert(key@ == spec_detection_key(opt_str_view(name)));
    language_for_key(key)
}

/// The error of language detection: no language is known for the file.
#[derive(Debug)]
pub struct UnknownLanguage {
    pub filepath: String,
}

impl UnknownLanguage {
    /// The message of the error: `Can not detect language for file `
    /// followed by the path.
    pub fn to_string(&self) -> (message: String)
        ensures
            message@ == "Can not detect language for file "@ + self.filepath@,
    {
        let mut message = String::from_str("Can not detect language for file ");
        message.append(self.filepath.as_str());
        message
    }
}

/// The language of a file, detected from its path as `spec_language_for_key`
/// and `spec_detection_key` state.
pub fn get_language_from_filepath(filepath: &str) -> (r: Result<Languages, UnknownLanguage>)
    ensures
        match spec_language_for_key(spec_detection_key(spec_path_file_name(filepath@))) {
            Some(l) => r == Ok::<Languages, UnknownLanguage>(l),
            None => r matches Err(e) && e.filepath@ == filepath@,
        },
{
    let name = path_file_name(filepath);
    match language_from_file_name(name) {
        Some(lang) => Ok(lang),
        None => Err(UnknownLanguage { filepath: filepath.to_owned() }),
    }
}

} // verus!
