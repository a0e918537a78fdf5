//! Content types by file extension.

use crate::headers::{all_value_bytes, all_visible, value_bytes};
use crate::text::same_text;
use http::HeaderValue;
use vstd::prelude::*;
use vstd::string::StringSliceAdditionalSpecFns;
use vstd::utf8::encode_utf8;

verus! {

/// Where content types of extensions that are not configured come from.
#[derive(Clone, Copy, Debug, PartialEq, Eq, Structural)]
pub enum TypeSource {
    /// The built-in table of common types.
    Table,
    /// The table of the `mime_guess` crate.
    MimeGuess,
}

/// The first content type that `mime_guess` has for an extension.
pub uninterp spec fn mime_guess_type(ext: Seq<char>) -> Option<Seq<char>>;

/// `mime_guess::from_ext` and `MimeGuess::first_raw`: the first content type listed for the
/// extension; none for an empty extension. Which one has a name, `mime_guess_type`. Every type that
/// the crate lists is visible ASCII.
#[verifier::external_body]
fn mime_guess_raw(ext: &str) -> (r: Option<&'static str>)
    ensures
        match r {
            Some(s) => mime_guess_type(ext@) == Some(s@) && all_visible(s.spec_bytes()),
            None => mime_guess_type(ext@) is None,
        },
        ext@.len() == 0 ==> r is None,
{
    mime_guess::from_ext(ext).first_raw()
}

/// The content type of an extension in the built-in table.
pub open spec fn table_type(ext: Seq<char>) -> Option<Seq<char>> {
    if ext == "html"@ || ext == "htm"@ || ext == "hxt"@ {
        Some("text/html"@)
    } else if ext == "css"@ {
        Some("text/css"@)
    } else if ext == "js"@ || ext == "es"@ || ext == "ecma"@ || ext == "jsm"@ || ext == "jsx"@ {
        Some("application/javascript"@)
    } else if ext == "png"@ {
        Some("image/png"@)
    } else if ext == "apng"@ {
        Some("image/apng"@)
    } else if ext == "avif"@ {
        Some("image/avif"@)
    } else if ext == "gif"@ {
        Some("image/gif"@)
    } else if ext == "ico"@ {
        Some("image/x-icon"@)
    } else if ext == "jpeg"@ || ext == "jfif"@ || ext == "pjpeg"@ || ext == "pjp"@
            || ext == "jpg"@ {
        Some("image/jpeg"@)
    } else if ext == "svg"@ {
        Some("image/svg+xml"@)
    } else if ext == "tiff"@ {
        Some("image/tiff"@)
    } else if ext == "webp"@ {
        Some("image/webp"@)
    } else if ext == "bmp"@ {
        Some("image/bmp"@)
    } else if ext == "pdf"@ {
        Some("application/pdf"@)
    } else if ext == "zip"@ {
        Some("application/zip"@)
    } else if ext == "gz"@ {
        Some("application/gzip"@)
    } else if ext == "tar"@ {
        Some("application/tar"@)
    } else if ext == "bz"@ {
        Some("application/x-bzip"@)
    } else if ext == "bz2"@ {
        Some("application/x-bzip2"@)
    } else if ext == "xz"@ {
        Some("application/x-xz"@)
    } else if ext == "csv"@ {
        Some("text/csv"@)
    } else if ext == "txt"@ || ext == "text"@ || ext == "log"@ {
        Some("text/plain"@)
    } else if ext == "md"@ {
        Some("text/markdown"@)
    } else if ext == "markdown"@ || ext == "mkd"@ {
        Some("text/x-markdown"@)
    } else if ext == "mp4"@ || ext == "mpg4"@ {
        Some("video/mp4"@)
    } else if ext == "webm"@ {
        Some("video/webm"@)
    } else if ext == "mpeg"@ || ext == "mpg"@ {
        Some("video/mpeg"@)
    } else if ext == "xml"@ {
        Some("application/xml"@)
    } else if ext == "json"@ {
        Some("application/json"@)
    } else if ext == "yaml"@ || ext == "yml"@ {
        Some("application/yaml"@)
    } else if ext == "toml"@ {
        Some("application/toml"@)
    } else if ext == "ini"@ {
        Some("application/ini"@)
    } else if ext == "ics"@ {
        Some("text/calendar"@)
    } else if ext == "doc"@ {
        Some("application/msword"@)
    } else if ext == "docx"@ {
        Some("application/vnd.openxmlformats-officedocument.wordprocessingml.document"@)
    } else if ext == "xls"@ {
        Some("application/vnd.ms-excel"@)
    } else if ext == "xlsx"@ {
        Some("application/vnd.openxmlformats-officedocument.spreadsheetml.sheet"@)
    } else if ext == "ppt"@ {
        Some("application/vnd.ms-powerpoint"@)
    } else if ext == "pptx"@ {
        Some("application/vnd.openxmlformats-officedocument.presentationml.presentation"@)
    } else {
        None
    }
}

/// Looks an extension up in the built-in table.
fn table_raw(ext: &str) -> (r: Option<&'static str>)
    ensures
        match r {
            Some(s) => table_type(ext@) == Some(s@),
            None => table_type(ext@) is None,
        },
{
    if same_text(ext, "html") || same_text(ext, "htm") || same_text(ext, "hxt") {
        Some("text/html")
    } else if same_text(ext, "css") {
        Some("text/css")
    } else if same_text(ext, "js") || same_text(ext, "es") || same_text(ext, "ecma")
            || same_text(ext, "jsm") || same_text(ext, "jsx") {
        Some("application/javascript")
    } else if same_text(ext, "png") {
        Some("image/png")
    } else if same_text(ext, "apng") {
        Some("image/apng")
    } else if same_text(ext, "avif") {
        Some("image/avif")
    } else if same_text(ext, "gif") {
        Some("image/gif")
    } else if same_text(ext, "ico") {
        Some("image/x-icon")
    } else if same_text(ext, "jpeg") || same_text(ext, "jfif") || same_text(ext, "pjpeg")
            || same_text(ext, "pjp") || same_text(ext, "jpg") {
        Some("image/jpeg")
    } else if same_text(ext, "svg") {
        Some("image/svg+xml")
    } else if same_text(ext, "tiff") {
        Some("image/tiff")
    } else if same_text(ext, "webp") {
        Some("image/webp")
    } else if same_text(ext, "bmp") {
        Some("image/bmp")
    } else if same_text(ext, "pdf") {
        Some("application/pdf")
    } else if same_text(ext, "zip") {
        Some("application/zip")
    } else if same_text(ext, "gz") {
        Some("application/gzip")
    } else if same_text(ext, "tar") {
        Some("application/tar")
    } else if same_text(ext, "bz") {
        Some("application/x-bzip")
    } else if same_text(ext, "bz2") {
        Some("application/x-bzip2")
    } else if same_text(ext, "xz") {
        Some("application/x-xz")
    } else if same_text(ext, "csv") {
        Some("text/csv")
    } else if same_text(ext, "txt") || same_text(ext, "text") || same_text(ext, "log") {
        Some("text/plain")
    } else if same_text(ext, "md") {
        Some("text/markdown")
    } else if same_text(ext, "markdown") || same_text(ext, "mkd") {
        Some("text/x-markdown")
    } else if same_text(ext, "mp4") || same_text(ext, "mpg4") {
        Some("video/mp4")
    } else if same_text(ext, "webm") {
        Some("video/webm")
    } else if same_text(ext, "mpeg") || same_text(ext, "mpg") {
        Some("video/mpeg")
    } else if same_text(ext, "xml") {
        Some("application/xml")
    } else if same_text(ext, "json") {
        Some("application/json")
    } else if same_text(ext, "yaml") || same_text(ext, "yml") {
        Some("application/yaml")
    } else if same_text(ext, "toml") {
        Some("application/toml")
    } else if same_text(ext, "ini") {
        Some("application/ini")
    } else if same_text(ext, "ics") {
        Some("text/calendar")
    } else if same_text(ext, "doc") {
        Some("application/msword")
    } else if same_text(ext, "docx") {
        Some("application/vnd.openxmlformats-officedocument.wordprocessingml.document")
    } else if same_text(ext, "xls") {
        Some("application/vnd.ms-excel")
    } else if same_text(ext, "xlsx") {
        Some("application/vnd.openxmlformats-officedocument.spreadsheetml.sheet")
    } else if same_text(ext, "ppt") {
        Some("application/vnd.ms-powerpoint")
    } else if same_text(ext, "pptx") {
        Some("application/vnd.openxmlformats-officedocument.presentationml.presentation")
    } else {
        None
    }
}

proof fn lemma_text_types_visible()
    ensures
        all_visible("text/html".spec_bytes()),
        all_visible("text/css".spec_bytes()),
        all_visible("text/csv".spec_bytes()),
        all_visible("text/plain".spec_bytes()),
        all_visible("text/markdown".spec_bytes()),
        all_visible("text/x-markdown".spec_bytes()),
        all_visible("text/calendar".spec_bytes()),
{
    broadcast use vstd::string::is_ascii_spec_bytes;

    assert(all_visible("text/html".spec_bytes())) by {
        reveal_strlit("text/html");
        assert("text/html".is_ascii());
    }
    assert(all_visible("text/css".spec_bytes())) by {
        reveal_strlit("text/css");
        assert("text/css".is_ascii());
    }
    assert(all_visible("text/csv".spec_bytes())) by {
        reveal_strlit("text/csv");
        assert("text/csv".is_ascii());
    }
    assert(all_visible("text/plain".spec_bytes())) by {
        reveal_strlit("text/plain");
        assert("text/plain".is_ascii());
    }
    assert(all_visible("text/markdown".spec_bytes())) by {
        reveal_strlit("text/markdown");
        assert("text/markdown".is_ascii());
    }
    assert(all_visible("text/x-markdown".spec_bytes())) by {
        reveal_strlit("text/x-markdown");
        assert("text/x-markdown".is_ascii());
    }
    assert(all_visible("text/calendar".spec_bytes())) by {
        reveal_strlit("text/calendar");
        assert("text/calendar".is_ascii());
    }
}

proof fn lemma_media_types_visible()
    ensures
        all_visible("image/png".spec_bytes()),
        all_visible("image/apng".spec_bytes()),
        all_visible("image/avif".spec_bytes()),
        all_visible("image/gif".spec_bytes()),
        all_visible("image/x-icon".spec_bytes()),
        all_visible("image/jpeg".spec_bytes()),
        all_visible("image/svg+xml".spec_bytes()),
        all_visible("image/tiff".spec_bytes()),
        all_visible("image/webp".spec_bytes()),
        all_visible("image/bmp".spec_bytes()),
        all_visible("video/mp4".spec_bytes()),
        all_visible("video/webm".spec_bytes()),
        all_visible("video/mpeg".spec_bytes()),
{
    broadcast use vstd::string::is_ascii_spec_bytes;

    assert(all_visible("image/png".spec_bytes())) by {
        reveal_strlit("image/png");
        assert("image/png".is_ascii());
    }
    assert(all_visible("image/apng".spec_bytes())) by {
        reveal_strlit("image/apng");
        assert("image/apng".is_ascii());
    }
    assert(all_visible("image/avif".spec_bytes())) by {
        reveal_strlit("image/avif");
        assert("image/avif".is_ascii());
    }
    assert(all_visible("image/gif".spec_bytes())) by {
        reveal_strlit("image/gif");
        assert("image/gif".is_ascii());
    }
    assert(all_visible("image/x-icon".spec_bytes())) by {
        reveal_strlit("image/x-icon");
        assert("image/x-icon".is_ascii());
    }
    assert(all_visible("image/jpeg".spec_bytes())) by {
        reveal_strlit("image/jpeg");
        assert("image/jpeg".is_ascii());
    }
    assert(all_visible("image/svg+xml".spec_bytes())) by {
        reveal_strlit("image/svg+xml");
        assert("image/svg+xml".is_ascii());
    }
    assert(all_visible("image/tiff".spec_bytes())) by {
        reveal_strlit("image/tiff");
        assert("image/tiff".is_ascii());
    }
    assert(all_visible("image/webp".spec_bytes())) by {
        reveal_strlit("image/webp");
        assert("image/webp".is_ascii());
    }
    assert(all_visible("image/bmp".spec_bytes())) by {
        reveal_strlit("image/bmp");
        assert("image/bmp".is_ascii());
    }
    assert(all_visible("video/mp4".spec_bytes())) by {
        reveal_strlit("video/mp4");
        assert("video/mp4".is_ascii());
    }
    assert(all_visible("video/webm".spec_bytes())) by {
        reveal_strlit("video/webm");
        assert("video/webm".is_ascii());
    }
    assert(all_visible("video/mpeg".spec_bytes())) by {
        reveal_strlit("video/mpeg");
        assert("video/mpeg".is_ascii());
    }
}

proof fn lemma_application_types_visible()
    ensures
        all_visible("application/javascript".spec_bytes()),
        all_visible("application/pdf".spec_bytes()),
        all_visible("application/zip".spec_bytes()),
        all_visible("application/gzip".spec_bytes()),
        all_visible("application/tar".spec_bytes()),
        all_visible("application/xml".spec_bytes()),
        all_visible("application/json".spec_bytes()),
        all_visible("application/yaml".spec_bytes()),
        all_visible("application/toml".spec_bytes()),
        all_visible("application/ini".spec_bytes()),
        all_visible("application/msword".spec_bytes()),
{
    broadcast use vstd::string::is_ascii_spec_bytes;

    assert(all_visible("application/javascript".spec_bytes())) by {
        reveal_strlit("application/javascript");
        assert("application/javascript".is_ascii());
    }
    assert(all_visible("application/pdf".spec_bytes())) by {
        reveal_strlit("application/pdf");
        assert("application/pdf".is_ascii());
    }
    assert(all_visible("application/zip".spec_bytes())) by {
        reveal_strlit("application/zip");
        assert("application/zip".is_ascii());
    }
    assert(all_visible("application/gzip".spec_bytes())) by {
        reveal_strlit("application/gzip");
        assert("application/gzip".is_ascii());
    }
    assert(all_visible("application/tar".spec_bytes())) by {
        reveal_strlit("application/tar");
        assert("application/tar".is_ascii());
    }
    assert(all_visible("application/xml".spec_bytes())) by {
        reveal_strlit("application/xml");
        assert("application/xml".is_ascii());
    }
    assert(all_visible("application/json".spec_bytes())) by {
        reveal_strlit("application/json");
        assert("application/json".is_ascii());
    }
    assert(all_visible("application/yaml".spec_bytes())) by {
        reveal_strlit("application/yaml");
        assert("application/yaml".is_ascii());
    }
    assert(all_visible("application/toml".spec_bytes())) by {
        reveal_strlit("application/toml");
        assert("application/toml".is_ascii());
    }
    assert(all_visible("application/ini".spec_bytes())) by {
        reveal_strlit("application/ini");
        assert("application/ini".is_ascii());
    }
    assert(all_visible("application/msword".spec_bytes())) by {
        reveal_strlit("application/msword");
        assert("application/msword".is_ascii());
    }
}

proof fn lemma_other_application_types_visible()
    ensures
        all_visible("application/x-bzip".spec_bytes()),
        all_visible("application/x-bzip2".spec_bytes()),
        all_visible("application/x-xz".spec_bytes()),
        all_visible("application/vnd.ms-excel".spec_bytes()),
        all_visible("application/vnd.ms-powerpoint".spec_bytes()),
{
    broadcast use vstd::string::is_ascii_spec_bytes;

    assert(all_visible("application/x-bzip".spec_bytes())) by {
        reveal_strlit("application/x-bzip");
        assert("application/x-bzip".is_ascii());
    }
    assert(all_visible("application/x-bzip2".spec_bytes())) by {
        reveal_strlit("application/x-bzip2");
        assert("application/x-bzip2".is_ascii());
    }
    assert(all_visible("application/x-xz".spec_bytes())) by {
        reveal_strlit("application/x-xz");
        assert("application/x-xz".is_ascii());
    }
    assert(all_visible("application/vnd.ms-excel".spec_bytes())) by {
        reveal_strlit("application/vnd.ms-excel");
        assert("application/vnd.ms-excel".is_ascii());
    }
    assert(all_visible("application/vnd.ms-powerpoint".spec_bytes())) by {
        reveal_strlit("application/vnd.ms-powerpoint");
        assert("application/vnd.ms-powerpoint".is_ascii());
    }
}

proof fn lemma_office_wordprocessing_types_visible()
    ensures
        all_visible("application/vnd.openxmlformats-officedocument.wordprocessingml.document".spec_bytes()),
{
    broadcast use vstd::string::is_ascii_spec_bytes;

    assert(all_visible("application/vnd.openxmlformats-officedocument.wordprocessingml.document".spec_bytes())) by {
        reveal_strlit("application/vnd.openxmlformats-officedocument.wordprocessingml.document");
        assert("application/vnd.openxmlformats-officedocument.wordprocessingml.document".is_ascii());
    }
}

proof fn lemma_office_spreadsheet_types_visible()
    ensures
        all_visible("application/vnd.openxmlformats-officedocument.spreadsheetml.sheet".spec_bytes()),
{
    broadcast use vstd::string::is_ascii_spec_bytes;

    assert(all_visible("application/vnd.openxmlformats-officedocument.spreadsheetml.sheet".spec_bytes())) by {
        reveal_strlit("application/vnd.openxmlformats-officedocument.spreadsheetml.sheet");
        assert("application/vnd.openxmlformats-officedocument.spreadsheetml.sheet".is_ascii());
    }
}

proof fn lemma_office_presentation_types_visible()
    ensures
        all_visible("application/vnd.openxmlformats-officedocument.presentationml.presentation".spec_bytes()),
{
    broadcast use vstd::string::is_ascii_spec_bytes;

    assert(all_visible("application/vnd.openxmlformats-officedocument.presentationml.presentation".spec_bytes())) by {
        reveal_strlit("application/vnd.openxmlformats-officedocument.presentationml.presentation");
        assert("application/vnd.openxmlformats-officedocument.presentationml.presentation".is_ascii());
    }
}

/// The types in the built-in table are visible ASCII.
proof fn lemma_table_visible(ext: Seq<char>)
    ensures
        table_type(ext) matches Some(t) ==> all_visible(encode_utf8(t)),
{
    lemma_text_types_visible();
    lemma_media_types_visible();
    lemma_application_types_visible();
    lemma_other_application_types_visible();
    lemma_office_wordprocessing_types_visible();
    lemma_office_spreadsheet_types_visible();
    lemma_office_presentation_types_visible();
}

/// The content type of an extension, as far as the source has one.
pub open spec fn guessed_type(source: TypeSource, ext: Seq<char>) -> Option<Seq<char>> {
    match source {
        TypeSource::Table => table_type(ext),
        TypeSource::MimeGuess => mime_guess_type(ext),
    }
}

/// The content type, by its bytes, that is served: the configured one, else the guessed one, else
/// the default.
pub open spec fn chosen_type(
    configured: Option<Seq<u8>>,
    guessed: Option<Seq<char>>,
    default: Seq<u8>,
) -> Seq<u8> {
    match configured {
        Some(t) => t,
        None => match guessed {
            Some(t) => encode_utf8(t),
            None => default,
        },
    }
}

/// Guesses the content type of an extension.
pub fn guess_content_type(source: TypeSource, ext: &str) -> (r: Option<&'static str>)
    ensures
        match r {
            Some(t) => guessed_type(source, ext@) == Some(t@) && all_visible(t.spec_bytes()),
            None => guessed_type(source, ext@) is None,
        },
{
    match source {
        TypeSource::Table => {
            proof {
                lemma_table_visible(ext@);
            }
            table_raw(ext)
        },
        TypeSource::MimeGuess => mime_guess_raw(ext),
    }
}

/// Picks the content type to serve.
pub fn choose_content_type(
    configured: Option<&HeaderValue>,
    guessed: Option<&str>,
    default: &HeaderValue,
) -> (r: HeaderValue)
    requires
        guessed matches Some(t) ==> all_value_bytes(t.spec_bytes()),
    ensures
        value_bytes(r) == chosen_type(
            match configured {
                Some(v) => Some(value_bytes(*v)),
                None => None,
            },
            match guessed {
                Some(t) => Some(t@),
                None => None,
            },
            value_bytes(*default),
        ),
{
    match configured {
        Some(v) => v.clone(),
        None => match guessed {
            Some(t) => HeaderValue::from_str(t).unwrap(),
            None => default.clone(),
        },
    }
}

/// A configured content type is served whatever the extension; a guessed one goes before the
/// default; the default is what is left.
pub proof fn lemma_type_precedence(
    configured: Option<Seq<u8>>,
    source: TypeSource,
    ext: Seq<char>,
    default: Seq<u8>,
)
    ensures
        configured matches Some(t) ==> chosen_type(configured, guessed_type(source, ext), default)
            == t,
        configured is None && guessed_type(source, ext) is Some ==> chosen_type(
            configured,
            guessed_type(source, ext),
            default,
        ) == encode_utf8(guessed_type(source, ext).unwrap()),
        configured is None && guessed_type(source, ext) is None ==> chosen_type(
            configured,
            guessed_type(source, ext),
            default,
        ) == default,
{
}

/// This is a common type of text, and the extension is one of its files.
pub open spec fn is_text(ext: Seq<char>, content_type: Seq<char>) -> bool {
    ||| content_type == "text/html"@ && (ext == "html"@ || ext == "htm"@ || ext == "hxt"@)
    ||| content_type == "text/css"@ && ext == "css"@
    ||| content_type == "text/csv"@ && ext == "csv"@
    ||| content_type == "text/plain"@ && (ext == "txt"@ || ext == "text"@ || ext == "log"@)
    ||| content_type == "text/markdown"@ && ext == "md"@
    ||| content_type == "text/x-markdown"@ && (ext == "markdown"@ || ext == "mkd"@)
    ||| content_type == "text/calendar"@ && ext == "ics"@
}

/// This is a common type of image, and the extension is one of its files.
pub open spec fn is_image(ext: Seq<char>, content_type: Seq<char>) -> bool {
    ||| content_type == "image/png"@ && ext == "png"@
    ||| content_type == "image/apng"@ && ext == "apng"@
    ||| content_type == "image/avif"@ && ext == "avif"@
    ||| content_type == "image/gif"@ && ext == "gif"@
    ||| content_type == "image/x-icon"@ && ext == "ico"@
    ||| content_type == "image/jpeg"@ && (ext == "jpeg"@ || ext == "jfif"@ || ext == "pjpeg"@ || ext
        == "pjp"@ || ext == "jpg"@)
    ||| content_type == "image/svg+xml"@ && ext == "svg"@
    ||| content_type == "image/tiff"@ && ext == "tiff"@
    ||| content_type == "image/webp"@ && ext == "webp"@
    ||| content_type == "image/bmp"@ && ext == "bmp"@
}

/// This is a common type of video, and the extension is one of its files.
pub open spec fn is_video(ext: Seq<char>, content_type: Seq<char>) -> bool {
    ||| content_type == "video/mp4"@ && (ext == "mp4"@ || ext == "mpg4"@)
    ||| content_type == "video/webm"@ && ext == "webm"@
    ||| content_type == "video/mpeg"@ && (ext == "mpeg"@ || ext == "mpg"@)
}

/// This is a common type of other content, and the extension is one of its files.
pub open spec fn is_application(ext: Seq<char>, content_type: Seq<char>) -> bool {
    ||| content_type == "application/javascript"@ && (ext == "js"@ || ext == "es"@ || ext == "ecma"@
        || ext == "jsm"@ || ext == "jsx"@)
    ||| content_type == "application/pdf"@ && ext == "pdf"@
    ||| content_type == "application/zip"@ && ext == "zip"@
    ||| content_type == "application/gzip"@ && ext == "gz"@
    ||| content_type == "application/tar"@ && ext == "tar"@
    ||| content_type == "application/x-bzip"@ && ext == "bz"@
    ||| content_type == "application/x-bzip2"@ && ext == "bz2"@
    ||| content_type == "application/x-xz"@ && ext == "xz"@
    ||| content_type == "application/xml"@ && ext == "xml"@
    ||| content_type == "application/json"@ && ext == "json"@
    ||| content_type == "application/yaml"@ && (ext == "yaml"@ || ext == "yml"@)
    ||| content_type == "application/toml"@ && ext == "toml"@
    ||| content_type == "application/ini"@ && ext == "ini"@
    ||| content_type == "application/msword"@ && ext == "doc"@
    ||| ext == "docx"@ && content_type
        == "application/vnd.openxmlformats-officedocument.wordprocessingml.document"@
    ||| content_type == "application/vnd.ms-excel"@ && ext == "xls"@
    ||| ext == "xlsx"@ && content_type
        == "application/vnd.openxmlformats-officedocument.spreadsheetml.sheet"@
    ||| content_type == "application/vnd.ms-powerpoint"@ && ext == "ppt"@
    ||| ext == "pptx"@ && content_type
        == "application/vnd.openxmlformats-officedocument.presentationml.presentation"@
}

/// The built-in table has these types, for these extensions and for no others.
pub proof fn lemma_common_types(ext: &str, r: Option<&'static str>, content_type: Seq<char>)
    requires
        call_ensures(guess_content_type, (TypeSource::Table, ext), r),
    ensures
        (r matches Some(found) && found@ == content_type) <==> {
            ||| is_text(ext@, content_type)
            ||| is_image(ext@, content_type)
            ||| is_video(ext@, content_type)
            ||| is_application(ext@, content_type)
        },
{
    reveal_strlit("html");
    assert("html"@.len() == 4 && "html"@[0] == 'h' && "html"@[1] == 't' && "html"@[3] == 'l');
    reveal_strlit("htm");
    assert("htm"@.len() == 3 && "htm"@[0] == 'h' && "htm"@[1] == 't' && "htm"@[2] == 'm');
    reveal_strlit("hxt");
    assert("hxt"@.len() == 3 && "hxt"@[0] == 'h' && "hxt"@[1] == 'x' && "hxt"@[2] == 't');
    reveal_strlit("css");
    assert("css"@.len() == 3 && "css"@[0] == 'c' && "css"@[1] == 's' && "css"@[2] == 's');
    reveal_strlit("js");
    assert("js"@.len() == 2 && "js"@[0] == 'j' && "js"@[1] == 's');
    reveal_strlit("es");
    assert("es"@.len() == 2 && "es"@[0] == 'e' && "es"@[1] == 's');
    reveal_strlit("ecma");
    assert("ecma"@.len() == 4 && "ecma"@[0] == 'e' && "ecma"@[1] == 'c' && "ecma"@[3] == 'a');
    reveal_strlit("jsm");
    assert("jsm"@.len() == 3 && "jsm"@[0] == 'j' && "jsm"@[1] == 's' && "jsm"@[2] == 'm');
    reveal_strlit("jsx");
    assert("jsx"@.len() == 3 && "jsx"@[0] == 'j' && "jsx"@[1] == 's' && "jsx"@[2] == 'x');
    reveal_strlit("png");
    assert("png"@.len() == 3 && "png"@[0] == 'p' && "png"@[1] == 'n' && "png"@[2] == 'g');
    reveal_strlit("apng");
    assert("apng"@.len() == 4 && "apng"@[0] == 'a' && "apng"@[1] == 'p' && "apng"@[3] == 'g');
    reveal_strlit("avif");
    assert("avif"@.len() == 4 && "avif"@[0] == 'a' && "avif"@[1] == 'v' && "avif"@[3] == 'f');
    reveal_strlit("gif");
    assert("gif"@.len() == 3 && "gif"@[0] == 'g' && "gif"@[1] == 'i' && "gif"@[2] == 'f');
    reveal_strlit("ico");
    assert("ico"@.len() == 3 && "ico"@[0] == 'i' && "ico"@[1] == 'c' && "ico"@[2] == 'o');
    reveal_strlit("jpeg");
    assert("jpeg"@.len() == 4 && "jpeg"@[0] == 'j' && "jpeg"@[1] == 'p' && "jpeg"@[3] == 'g');
    reveal_strlit("jfif");
    assert("jfif"@.len() == 4 && "jfif"@[0] == 'j' && "jfif"@[1] == 'f' && "jfif"@[3] == 'f');
    reveal_strlit("pjpeg");
    assert("pjpeg"@.len() == 5 && "pjpeg"@[0] == 'p' && "pjpeg"@[1] == 'j' && "pjpeg"@[4] == 'g');
    reveal_strlit("pjp");
    assert("pjp"@.len() == 3 && "pjp"@[0] == 'p' && "pjp"@[1] == 'j' && "pjp"@[2] == 'p');
    reveal_strlit("jpg");
    assert("jpg"@.len() == 3 && "jpg"@[0] == 'j' && "jpg"@[1] == 'p' && "jpg"@[2] == 'g');
    reveal_strlit("svg");
    assert("svg"@.len() == 3 && "svg"@[0] == 's' && "svg"@[1] == 'v' && "svg"@[2] == 'g');
    reveal_strlit("tiff");
    assert("tiff"@.len() == 4 && "tiff"@[0] == 't' && "tiff"@[1] == 'i' && "tiff"@[3] == 'f');
    reveal_strlit("webp");
    assert("webp"@.len() == 4 && "webp"@[0] == 'w' && "webp"@[1] == 'e' && "webp"@[3] == 'p');
    reveal_strlit("bmp");
    assert("bmp"@.len() == 3 && "bmp"@[0] == 'b' && "bmp"@[1] == 'm' && "bmp"@[2] == 'p');
    reveal_strlit("pdf");
    assert("pdf"@.len() == 3 && "pdf"@[0] == 'p' && "pdf"@[1] == 'd' && "pdf"@[2] == 'f');
    reveal_strlit("zip");
    assert("zip"@.len() == 3 && "zip"@[0] == 'z' && "zip"@[1] == 'i' && "zip"@[2] == 'p');
    reveal_strlit("gz");
    assert("gz"@.len() == 2 && "gz"@[0] == 'g' && "gz"@[1] == 'z');
    reveal_strlit("tar");
    assert("tar"@.len() == 3 && "tar"@[0] == 't' && "tar"@[1] == 'a' && "tar"@[2] == 'r');
    reveal_strlit("bz");
    assert("bz"@.len() == 2 && "bz"@[0] == 'b' && "bz"@[1] == 'z');
    reveal_strlit("bz2");
    assert("bz2"@.len() == 3 && "bz2"@[0] == 'b' && "bz2"@[1] == 'z' && "bz2"@[2] == '2');
    reveal_strlit("xz");
    assert("xz"@.len() == 2 && "xz"@[0] == 'x' && "xz"@[1] == 'z');
    reveal_strlit("csv");
    assert("csv"@.len() == 3 && "csv"@[0] == 'c' && "csv"@[1] == 's' && "csv"@[2] == 'v');
    reveal_strlit("txt");
    assert("txt"@.len() == 3 && "txt"@[0] == 't' && "txt"@[1] == 'x' && "txt"@[2] == 't');
    reveal_strlit("text");
    assert("text"@.len() == 4 && "text"@[0] == 't' && "text"@[1] == 'e' && "text"@[3] == 't');
    reveal_strlit("log");
    assert("log"@.len() == 3 && "log"@[0] == 'l' && "log"@[1] == 'o' && "log"@[2] == 'g');
    reveal_strlit("md");
    assert("md"@.len() == 2 && "md"@[0] == 'm' && "md"@[1] == 'd');
    reveal_strlit("markdown");
    assert("markdown"@.len() == 8);
    reveal_strlit("mkd");
    assert("mkd"@.len() == 3 && "mkd"@[0] == 'm' && "mkd"@[1] == 'k' && "mkd"@[2] == 'd');
    reveal_strlit("mp4");
    assert("mp4"@.len() == 3 && "mp4"@[0] == 'm' && "mp4"@[1] == 'p' && "mp4"@[2] == '4');
    reveal_strlit("webm");
    assert("webm"@.len() == 4 && "webm"@[0] == 'w' && "webm"@[1] == 'e' && "webm"@[3] == 'm');
    reveal_strlit("mpeg");
    assert("mpeg"@.len() == 4 && "mpeg"@[0] == 'm' && "mpeg"@[1] == 'p' && "mpeg"@[3] == 'g');
    reveal_strlit("mpg");
    assert("mpg"@.len() == 3 && "mpg"@[0] == 'm' && "mpg"@[1] == 'p' && "mpg"@[2] == 'g');
    reveal_strlit("mpg4");
    assert("mpg4"@.len() == 4 && "mpg4"@[0] == 'm' && "mpg4"@[1] == 'p' && "mpg4"@[3] == '4');
    reveal_strlit("xml");
    assert("xml"@.len() == 3 && "xml"@[0] == 'x' && "xml"@[1] == 'm' && "xml"@[2] == 'l');
    reveal_strlit("json");
    assert("json"@.len() == 4 && "json"@[0] == 'j' && "json"@[1] == 's' && "json"@[3] == 'n');
    reveal_strlit("yaml");
    assert("yaml"@.len() == 4 && "yaml"@[0] == 'y' && "yaml"@[1] == 'a' && "yaml"@[3] == 'l');
    reveal_strlit("yml");
    assert("yml"@.len() == 3 && "yml"@[0] == 'y' && "yml"@[1] == 'm' && "yml"@[2] == 'l');
    reveal_strlit("toml");
    assert("toml"@.len() == 4 && "toml"@[0] == 't' && "toml"@[1] == 'o' && "toml"@[3] == 'l');
    reveal_strlit("ini");
    assert("ini"@.len() == 3 && "ini"@[0] == 'i' && "ini"@[1] == 'n' && "ini"@[2] == 'i');
    reveal_strlit("ics");
    assert("ics"@.len() == 3 && "ics"@[0] == 'i' && "ics"@[1] == 'c' && "ics"@[2] == 's');
    reveal_strlit("doc");
    assert("doc"@.len() == 3 && "doc"@[0] == 'd' && "doc"@[1] == 'o' && "doc"@[2] == 'c');
    reveal_strlit("docx");
    assert("docx"@.len() == 4 && "docx"@[0] == 'd' && "docx"@[1] == 'o' && "docx"@[3] == 'x');
    reveal_strlit("xls");
    assert("xls"@.len() == 3 && "xls"@[0] == 'x' && "xls"@[1] == 'l' && "xls"@[2] == 's');
    reveal_strlit("xlsx");
    assert("xlsx"@.len() == 4 && "xlsx"@[0] == 'x' && "xlsx"@[1] == 'l' && "xlsx"@[3] == 'x');
    reveal_strlit("ppt");
    assert("ppt"@.len() == 3 && "ppt"@[0] == 'p' && "ppt"@[1] == 'p' && "ppt"@[2] == 't');
    reveal_strlit("pptx");
    assert("pptx"@.len() == 4 && "pptx"@[0] == 'p' && "pptx"@[1] == 'p' && "pptx"@[3] == 'x');
}

/// The other source is asked for nothing but the extension.
pub proof fn lemma_guessed_types(ext: &str, r: Option<&'static str>)
    requires
        call_ensures(guess_content_type, (TypeSource::MimeGuess, ext), r),
    ensures
        r matches Some(found) ==> mime_guess_type(ext@) == Some(found@),
        r is None ==> mime_guess_type(ext@) is None,
{
}

} // verus!
