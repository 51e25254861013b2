//! Calls into tokei: language detection, line counting and language names.
//!
//! A language is represented by its index: the position of its variant in
//! `tokei::LanguageType`, which is also its position in
//! `LanguageType::list()` (both are generated from the same list of
//! languages, in the same order). Maps of counts are ordered by this index,
//! as tokei orders the variants.
//!
//! tokei is always handed its default configuration, as it is built by
//! `tokei::Config::default()`.
use std::io::Write;
use vstd::prelude::*;

verus! {

/// The index is that of a tokei language: below the length of
/// `LanguageType::list()`.
pub uninterp spec fn is_language_index(lang: u32) -> bool;

/// tokei's `LanguageType::name()` of the language with this index.
pub uninterp spec fn language_name(lang: u32) -> Seq<char>;

/// The language with this index is `LanguageType::Jupyter`.
pub uninterp spec fn is_jupyter_language(lang: u32) -> bool;

/// `String::from_utf8_lossy` of these bytes.
pub uninterp spec fn lossy_text(data: Seq<u8>) -> Seq<char>;

/// The top-level (code, comments, blanks) of tokei's `parse_from_str` of
/// the text as this language.
pub uninterp spec fn tokei_top_level_counts(lang: u32, text: Seq<char>) -> (usize, usize, usize);

/// The (code, comments, blanks) of tokei's `parse_from_str` of the text as
/// this language, with the languages embedded in it folded in by
/// `CodeStats::summarise`.
pub uninterp spec fn tokei_folded_counts(lang: u32, text: Seq<char>) -> (usize, usize, usize);

#[verifier::external_type_specification]
#[verifier::external_body]
pub struct ExIoError(std::io::Error);

/// tokei's `LanguageType::from_path` of the name joined onto the
/// directory gave this language.
pub uninterp spec fn name_language_read(dir: Seq<char>, name: Seq<char>, lang: Option<u32>) -> bool;

/// tokei's `LanguageType::from_path` of a temporary file holding these
/// bytes gave this language.
pub uninterp spec fn file_language_read(contents: Seq<u8>, lang: Option<u32>) -> bool;

/// tokei's `LanguageType::from_path` of `Path::join` of the entry name
/// onto the directory `dir`: the language of the name by its file name or
/// extension, and for a name without an extension by the shebang on the
/// first line of the file at that path, if there is one. A language found
/// is a tokei language; the answer is attested for `dir` and `name`.
#[verifier::external_body]
pub(crate) fn language_of_name(dir: &str, name: &str) -> (r: Option<u32>)
    ensures
        r matches Some(lang) ==> is_language_index(lang),
        name_language_read(dir@, name@, r),
{
    tokei::LanguageType::from_path(std::path::Path::new(dir).join(name), &tokei::Config::default())
        .map(|lang| lang as u32)
}

/// tokei's `LanguageType::from_path` of a new temporary file holding
/// `contents`: the file is created by `tempfile::NamedTempFile::new` (its
/// name has no extension), written with `Write::write_all`, flushed, and
/// removed when the `TempPath` that `NamedTempFile::into_temp_path` returns
/// is dropped. A language found is a tokei language; the answer is
/// attested for `contents`.
#[verifier::external_body]
pub(crate) fn language_of_file_with(contents: &[u8]) -> (r: Result<Option<u32>, std::io::Error>)
    ensures
        r matches Ok(found) ==> (found matches Some(lang) ==> is_language_index(lang))
            && file_language_read(contents@, found),
{
    let mut file = tempfile::NamedTempFile::new()?;
    file.write_all(contents)?;
    file.flush()?;
    let path = file.into_temp_path();
    Ok(tokei::LanguageType::from_path(path.to_path_buf(), &tokei::Config::default()).map(|lang| lang as u32))
}

/// The number of tokei languages, the length of `LanguageType::list()`:
/// an index names a language exactly when it is below it.
#[verifier::external_body]
pub(crate) fn language_count() -> (r: usize)
    ensures
        forall|lang: u32| #[trigger] is_language_index(lang) <==> (lang as int) < r,
{
    tokei::LanguageType::list().len()
}

/// tokei's `LanguageType::name` of the language with this index.
#[verifier::external_body]
pub(crate) fn language_display_name(lang: u32) -> (r: String)
    requires
        is_language_index(lang),
    ensures
        r@ == language_name(lang),
{
    tokei::LanguageType::list()[lang as usize].0.name().to_string()
}

/// Whether the language with this index is `LanguageType::Jupyter`.
#[verifier::external_body]
pub(crate) fn language_is_jupyter(lang: u32) -> (r: bool)
    requires
        is_language_index(lang),
    ensures
        r == is_jupyter_language(lang),
{
    tokei::LanguageType::list()[lang as usize].0 == tokei::LanguageType::Jupyter
}

/// `String::from_utf8_lossy`: invalid UTF-8 sequences become U+FFFD.
#[verifier::external_body]
pub(crate) fn lossy_utf8(data: &[u8]) -> (r: String)
    ensures
        r@ == lossy_text(data@),
{
    String::from_utf8_lossy(data).into_owned()
}

/// tokei's `parse_from_str` of the text as this language: the top-level
/// code, comment and blank line counts, and the same counts summarised with
/// `CodeStats::summarise`, which folds in the embedded languages' counts.
#[verifier::external_body]
pub(crate) fn tokei_parse(lang: u32, text: &str) -> (r: ((usize, usize, usize), (usize, usize, usize)))
    requires
        is_language_index(lang),
    ensures
        r.0 == tokei_top_level_counts(lang, text@),
        r.1 == tokei_folded_counts(lang, text@),
{
    let stats = tokei::LanguageType::list()[lang as usize].0.parse_from_str(
        text,
        &tokei::Config::default(),
    );
    let folded = stats.summarise();
    ((stats.code, stats.comments, stats.blanks), (folded.code, folded.comments, folded.blanks))
}

} // verus!
