//! Reorders HTML and Vue template attributes by semantic meaning, following a
//! swappable profile, and delegates stylesheet property order to `malva`.

use vstd::prelude::*;

pub mod attribute;
pub mod error;
pub mod markup;
pub mod order;
pub mod profile;
pub mod stylesheet;
pub mod text;

pub use error::{FormatError, ProfileError};
pub use profile::{GroupSort, Profile};

use error::FormatErrorView;
use markup::{edits_end, edits_ok, scan, spec_scan, stitched, Edit};
use stylesheet::{malva_format, malva_format_text, yaml_view, StyleLang};
use text::{chars_to_string, eq_str, lower_seq, lower_vec, to_chars};

verus! {

/// `std::path::Path`, only handed to [`path_extension`].
#[verifier::external_type_specification]
#[verifier::external_body]
pub struct ExPath(std::path::Path);

/// Input language.
#[derive(Clone, Copy, Debug, PartialEq, Eq, Structural)]
pub enum Language {
    Html,
    Vue,
    Css,
    Scss,
}

/// The language of a file extension, compared without regard to ASCII case.
pub open spec fn spec_from_extension(extension: Seq<char>) -> Option<Language> {
    let e = lower_seq(extension);
    if e == "html"@ || e == "htm"@ {
        Some(Language::Html)
    } else if e == "vue"@ {
        Some(Language::Vue)
    } else if e == "css"@ {
        Some(Language::Css)
    } else if e == "scss"@ {
        Some(Language::Scss)
    } else {
        None
    }
}

/// What `Path::extension` gives for `path`, as text: the part of the file
/// name after its last `.`; `None` without a file name, without a `.` in it,
/// for a name such as `.bashrc`, and when the extension is not UTF-8.
pub uninterp spec fn path_extension_of(path: &std::path::Path) -> Option<Seq<char>>;

/// `Path::extension` followed by `OsStr::to_str`. The contract claims that the
/// result is [`path_extension_of`] the path: it depends on the path alone.
#[verifier::external_body]
fn path_extension(path: &std::path::Path) -> (r: Option<String>)
    ensures
        (match r {
            Some(e) => Some(e@),
            None => None,
        }) == path_extension_of(path),
{
    match path.extension() {
        Some(extension) => extension.to_str().map(String::from),
        None => None,
    }
}

/// Name of the built-in profile used by default for `language`: `vue` for
/// Vue, `html` for the others.
pub open spec fn spec_default_profile(language: Language) -> Seq<char> {
    if language == Language::Vue {
        "vue"@
    } else {
        "html"@
    }
}

/// Every language's default profile is one that `Profile::builtin` finds,
/// and it is the `vue` profile exactly for Vue, the one that
/// `Config::for_language` uses.
pub proof fn lemma_default_profile_is_builtin(language: Language)
    ensures
        spec_default_profile(language) == "html"@ || spec_default_profile(language) == "vue"@,
        (spec_default_profile(language) == "vue"@) == (language == Language::Vue),
{
    reveal_strlit("html");
    reveal_strlit("vue");
    assert("html"@.len() != "vue"@.len());
}

impl Language {
    /// Infers the language from a file extension (`html`, `htm`, `vue`,
    /// `css`, `scss`, in any ASCII case).
    pub fn from_extension(extension: &str) -> (r: Option<Language>)
        ensures
            r == spec_from_extension(extension@),
    {
        let e = lower_vec(to_chars(extension).as_slice());
        if eq_str(e.as_slice(), "html") || eq_str(e.as_slice(), "htm") {
            Some(Language::Html)
        } else if eq_str(e.as_slice(), "vue") {
            Some(Language::Vue)
        } else if eq_str(e.as_slice(), "css") {
            Some(Language::Css)
        } else if eq_str(e.as_slice(), "scss") {
            Some(Language::Scss)
        } else {
            None
        }
    }

    /// Infers the language from a file's extension.
    pub fn from_path(path: &std::path::Path) -> (r: Option<Language>)
        ensures
            r == match path_extension_of(path) {
                Some(e) => spec_from_extension(e),
                None => None,
            },
    {
        match path_extension(path) {
            Some(extension) => Language::from_extension(extension.as_str()),
            None => None,
        }
    }

    /// Name of the built-in profile used by default for this language.
    pub fn default_profile(self) -> (r: &'static str)
        ensures
            r@ == spec_default_profile(self),
    {
        match self {
            Language::Vue => "vue",
            Language::Html | Language::Css | Language::Scss => "html",
        }
    }
}

/// Formatting configuration.
#[derive(Clone, Debug)]
pub struct Config {
    pub language: Language,
    pub profile: Profile,
}

impl Config {
    pub fn new(language: Language, profile: Profile) -> (r: Config)
        ensures
            r.language == language,
            r.profile == profile,
    {
        Config { language, profile }
    }

    /// Uses the built-in profile that matches `language`.
    pub fn for_language(language: Language) -> (r: Config)
        ensures
            r.language == language,
            r.profile.is_builtin(language == Language::Vue),
    {
        let profile = if language == Language::Vue {
            Profile::vue()
        } else {
            Profile::html()
        };
        Config::new(language, profile)
    }
}

/// A whole stylesheet formatted by `malva` with the profile's settings, or
/// the input unchanged when the profile has none; a `malva` error is reported
/// at line 1, column 1.
pub open spec fn spec_format_stylesheet(input: Seq<char>, lang: StyleLang, profile: Profile) -> Result<
    Seq<char>,
    FormatErrorView,
> {
    match profile.spec_stylesheet() {
        None => Ok(input),
        Some(sheet) => stylesheet_outcome(
            malva_format(
                input,
                lang,
                sheet.spec_source().declaration_order,
                sheet.spec_source().declaration_order_group_by,
                yaml_view(sheet.spec_source()),
            ),
        ),
    }
}

/// What `malva`'s outcome on a whole stylesheet becomes.
pub open spec fn stylesheet_outcome(r: Result<Seq<char>, Seq<char>>) -> Result<Seq<char>, FormatErrorView> {
    match r {
        Ok(s) => Ok(s),
        Err(m) => Err(FormatErrorView::Stylesheet { line: 1, column: 1, message: m }),
    }
}

/// What [`format`] returns for `input` under `config`.
pub open spec fn spec_format(input: Seq<char>, config: Config) -> Result<Seq<char>, FormatErrorView> {
    match config.language {
        Language::Html => spec_scan(input, config.profile, false),
        Language::Vue => spec_scan(input, config.profile, true),
        Language::Css => spec_format_stylesheet(input, StyleLang::Css, config.profile),
        Language::Scss => spec_format_stylesheet(input, StyleLang::Scss, config.profile),
    }
}

/// The result of formatting a whole stylesheet, from what `malva` returned:
/// its text, or its message as an error at line 1, column 1.
pub fn stylesheet_result(r: Result<String, String>) -> (out: Result<String, FormatError>)
    ensures
        (match out {
            Ok(s) => Ok(s@),
            Err(e) => Err(e@),
        }) == stylesheet_outcome(
            match r {
                Ok(s) => Ok(s@),
                Err(m) => Err(m@),
            },
        ),
{
    match r {
        Ok(s) => Ok(s),
        Err(message) => Err(FormatError::Stylesheet { line: 1, column: 1, message }),
    }
}

fn format_stylesheet(input: &str, lang: StyleLang, profile: &Profile) -> (r: Result<String, FormatError>)
    ensures
        (match r {
            Ok(s) => Ok(s@),
            Err(e) => Err(e@),
        }) == spec_format_stylesheet(input@, lang, *profile),
{
    match &profile.stylesheet {
        Some(sheet) => stylesheet_result(malva_format_text(input, lang, sheet)),
        None => Ok(String::from_str(input)),
    }
}

/// Formats `input`. Pure function: no file I/O. Markup is copied through
/// unchanged except for its start tags and the content of its `<style>`
/// elements.
pub fn format(input: &str, config: &Config) -> (r: Result<String, FormatError>)
    ensures
        (match r {
            Ok(s) => Ok(s@),
            Err(e) => Err(e@),
        }) == spec_format(input@, *config),
        (config.language == Language::Html || config.language == Language::Vue) ==> (r matches Ok(s)
            ==> exists|edits: Seq<Edit>|
            #[trigger] edits_ok(input@, edits) && s@ == stitched(input@, edits) + input@.subrange(
                edits_end(edits),
                input@.len() as int,
            )),
{
    match config.language {
        Language::Html | Language::Vue => {
            let src = to_chars(input);
            match scan(src.as_slice(), &config.profile, config.language == Language::Vue) {
                Ok(out) => Ok(chars_to_string(out.as_slice())),
                Err(e) => Err(e),
            }
        },
        Language::Css => format_stylesheet(input, StyleLang::Css, &config.profile),
        Language::Scss => format_stylesheet(input, StyleLang::Scss, &config.profile),
    }
}


/// A whole stylesheet is handed to `malva` in the syntax of its language
/// (CSS for `Css`, SCSS for `Scss`) with the profile's settings; without
/// settings it is returned unchanged, and a `malva` error is reported at
/// line 1, column 1.
pub proof fn lemma_stylesheet_syntax(input: Seq<char>, config: Config)
    requires
        config.language == Language::Css || config.language == Language::Scss,
    ensures
        spec_format(input, config) == match config.profile.spec_stylesheet() {
            None => Ok(input),
            Some(sheet) => match malva_format(
                input,
                if config.language == Language::Scss {
                    StyleLang::Scss
                } else {
                    StyleLang::Css
                },
                sheet.spec_source().declaration_order,
                sheet.spec_source().declaration_order_group_by,
                yaml_view(sheet.spec_source()),
            ) {
                Ok(s) => Ok(s),
                Err(m) => Err(FormatErrorView::Stylesheet { line: 1, column: 1, message: m }),
            },
        },
{
}

} // verus!
