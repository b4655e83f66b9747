//! Which files can be tracked, decided by the extension of their name.
//!
//! The name of a file is the part of its path after the last `/`, and its
//! extension is everything in the name from its first `.` on: `notes.tar.md`
//! has the extension `.tar.md`, and `./v1.2/notes.txt` has `.txt`.

use vstd::prelude::*;
use crate::text::{chars_equal, first_index_of, is_infix, last_index_of};

verus! {

/// Where the file name in `path` starts: just after its last `/`.
pub open spec fn name_start(path: Seq<char>) -> int {
    match path.index_of_last('/') {
        Some(i) => i + 1,
        None => 0,
    }
}

/// The file name in `path`: the part after its last `/`.
pub open spec fn file_name_of(path: Seq<char>) -> Seq<char> {
    path.skip(name_start(path))
}

/// The extension of a path: the chars from the first `.` of its file name
/// to its end.
pub open spec fn extension(path: Seq<char>) -> Option<Seq<char>> {
    match file_name_of(path).index_of_first('.') {
        Some(i) => Some(path.skip(name_start(path) + i)),
        None => None,
    }
}

/// Plain-text formats, embedded from their content.
pub open spec fn is_general_text_type(ext: Seq<char>) -> bool {
    ||| ext == ".txt"@
    ||| ext == ".md"@
    ||| ext == ".csv"@
    ||| ext == ".json"@
    ||| ext == ".tsv"@
    ||| ext == ".xml"@
}

/// Document formats that need their own text extraction.
pub open spec fn is_unique_text_type(ext: Seq<char>) -> bool {
    ext == ".pdf"@ || ext == ".doc"@
}

/// Image formats, embedded from their pixels.
pub open spec fn is_general_image_type(ext: Seq<char>) -> bool {
    ext == ".jpg"@ || ext == ".jpeg"@ || ext == ".png"@
}

pub open spec fn is_supported_type(ext: Seq<char>) -> bool {
    is_general_image_type(ext) || is_general_text_type(ext) || is_unique_text_type(ext)
}

/// A path names a trackable file when it has an extension of a supported type.
pub open spec fn valid_file_spec(path: Seq<char>) -> bool {
    match extension(path) {
        Some(ext) => is_supported_type(ext),
        None => false,
    }
}

/// The file name in `path`: the part after its last `/`.
pub fn file_name(path: &str) -> (res: &str)
    ensures
        res@ == file_name_of(path@),
{
    proof {
        path@.index_of_last_ensures('/');
    }
    let n = path.unicode_len();
    let start: usize = match last_index_of(path, '/') {
        Some(pos) => pos + 1,
        None => 0,
    };
    let name = path.substring_char(start, n);
    assert(name@ =~= path@.skip(start as int));
    name
}

/// The extension of `path`, if its file name has a `.`.
pub fn file_extension(path: &str) -> (res: Option<&str>)
    ensures
        match res {
            Some(ext) => extension(path@) == Some(ext@),
            None => extension(path@) is None,
        },
{
    let name = file_name(path);
    match first_index_of(name, '.') {
        Some(pos) => {
            proof {
                name@.index_of_first_ensures('.');
                path@.index_of_last_ensures('/');
            }
            let n = name.unicode_len();
            let ext = name.substring_char(pos, n);
            assert(ext@ =~= path@.skip(name_start(path@) + pos));
            Some(ext)
        },
        None => None,
    }
}

fn is_general_text_ext(ext: &str) -> (res: bool)
    ensures
        res == is_general_text_type(ext@),
{
    chars_equal(ext, ".txt") || chars_equal(ext, ".md") || chars_equal(ext, ".csv")
        || chars_equal(ext, ".json") || chars_equal(ext, ".tsv") || chars_equal(ext, ".xml")
}

fn is_unique_text_ext(ext: &str) -> (res: bool)
    ensures
        res == is_unique_text_type(ext@),
{
    chars_equal(ext, ".pdf") || chars_equal(ext, ".doc")
}

fn is_general_image_ext(ext: &str) -> (res: bool)
    ensures
        res == is_general_image_type(ext@),
{
    chars_equal(ext, ".jpg") || chars_equal(ext, ".jpeg") || chars_equal(ext, ".png")
}

/// Whether `path` has the extension of a supported file type.
pub fn is_valid_file(path: &str) -> (res: bool)
    ensures
        res == valid_file_spec(path@),
{
    match file_extension(path) {
        Some(ext) => is_general_image_ext(ext) || is_general_text_ext(ext) || is_unique_text_ext(
            ext,
        ),
        None => false,
    }
}

/// Why a path cannot be tracked.
#[derive(PartialEq, Eq, Structural, Debug, Clone, Copy)]
pub enum ValidationError {
    /// Nothing exists at the path.
    FileNotFound,
    /// The path has no `.` at all, and so no type extension.
    MissingExtension,
    /// The extension is not one of the supported types, or the only `.`
    /// of the path is in a directory name.
    InvalidType,
}

/// The outcome of checking a path, given whether something exists there.
pub open spec fn validation_spec(path: Seq<char>, exists: bool) -> Result<(), ValidationError> {
    if !exists {
        Err(ValidationError::FileNotFound)
    } else {
        match extension(path) {
            None => if path.contains('.') {
                Err(ValidationError::InvalidType)
            } else {
                Err(ValidationError::MissingExtension)
            },
            Some(ext) => if is_supported_type(ext) {
                Ok(())
            } else {
                Err(ValidationError::InvalidType)
            },
        }
    }
}

/// Checks a path before it is tracked: it must exist (as `exists` reports),
/// have a `.`, and its file name must have the extension of a supported
/// type. The checks are made in that order and the first that fails is
/// reported; a path whose only `.` is in a directory name has an invalid
/// type.
pub fn validate_file(path: &str, exists: bool) -> (res: Result<(), ValidationError>)
    ensures
        res == validation_spec(path@, exists),
{
    if !exists {
        return Err(ValidationError::FileNotFound);
    }
    match file_extension(path) {
        None => {
            proof {
                path@.index_of_first_ensures('.');
            }
            if first_index_of(path, '.').is_some() {
                Err(ValidationError::InvalidType)
            } else {
                Err(ValidationError::MissingExtension)
            }
        },
        Some(ext) => {
            if is_general_image_ext(ext) || is_general_text_ext(ext) || is_unique_text_ext(ext) {
                Ok(())
            } else {
                Err(ValidationError::InvalidType)
            }
        },
    }
}

/// The text shown to the user when `path` fails a check.
pub open spec fn validation_message_spec(err: ValidationError, path: Seq<char>) -> Seq<char> {
    match err {
        ValidationError::FileNotFound => "File not found at "@ + path + "."@,
        ValidationError::MissingExtension => "File "@ + path + " does not include type extension."@,
        ValidationError::InvalidType => "Invalid file type for "@ + path + "."@,
    }
}

impl ValidationError {
    /// The message reported for `path` when it fails with this error.
    pub fn message(&self, path: &str) -> (res: String)
        ensures
            res@ == validation_message_spec(*self, path@),
    {
        match self {
            ValidationError::FileNotFound => String::from_str("File not found at ").concat(
                path,
            ).concat("."),
            ValidationError::MissingExtension => String::from_str("File ").concat(path).concat(
                " does not include type extension.",
            ),
            ValidationError::InvalidType => String::from_str("Invalid file type for ").concat(
                path,
            ).concat("."),
        }
    }
}

/// How the content of a file is turned into an embedding.
#[derive(PartialEq, Eq, Structural, Debug, Clone, Copy)]
pub enum EmbeddingKind {
    /// Read as text, summarised, and the summary embedded.
    GeneralText,
    /// Converted to text first, then handled as text.
    Pdf,
    /// Word documents; not supported yet.
    Doc,
    /// Sent as an image.
    Image,
    /// No embedding can be made.
    Unsupported,
}

pub open spec fn embedding_kind_spec(path: Seq<char>) -> EmbeddingKind {
    match extension(path) {
        None => EmbeddingKind::Unsupported,
        Some(ext) => if is_general_text_type(ext) {
            EmbeddingKind::GeneralText
        } else if ext == ".pdf"@ {
            EmbeddingKind::Pdf
        } else if ext == ".doc"@ {
            EmbeddingKind::Doc
        } else if is_general_image_type(ext) {
            EmbeddingKind::Image
        } else {
            EmbeddingKind::Unsupported
        },
    }
}

/// Chooses how the file at `path` is embedded, by its extension.
pub fn embedding_kind(path: &str) -> (res: EmbeddingKind)
    ensures
        res == embedding_kind_spec(path@),
{
    match file_extension(path) {
        None => EmbeddingKind::Unsupported,
        Some(ext) => {
            if is_general_text_ext(ext) {
                EmbeddingKind::GeneralText
            } else if chars_equal(ext, ".pdf") {
                EmbeddingKind::Pdf
            } else if chars_equal(ext, ".doc") {
                EmbeddingKind::Doc
            } else if is_general_image_ext(ext) {
                EmbeddingKind::Image
            } else {
                EmbeddingKind::Unsupported
            }
        },
    }
}

/// The path up to the first `.` of its file name (nothing when the file
/// name has no `.`).
pub open spec fn stem(path: Seq<char>) -> Seq<char> {
    match file_name_of(path).index_of_first('.') {
        Some(i) => path.take(name_start(path) + i),
        None => Seq::empty(),
    }
}

/// Where the text extracted from a PDF is written: the path up to the first
/// `.` of its file name, followed by `.txt`.
pub fn pdf_text_path(abs_path: &str) -> (res: String)
    requires
        is_infix(".pdf"@, abs_path@),
    ensures
        res@ == stem(abs_path@) + ".txt"@,
{
    let name = file_name(abs_path);
    match first_index_of(name, '.') {
        Some(pos) => {
            proof {
                name@.index_of_first_ensures('.');
                abs_path@.index_of_last_ensures('/');
            }
            let n = abs_path.unicode_len();
            let cut = n - name.unicode_len() + pos;
            let head = abs_path.substring_char(0, cut);
            assert(head@ =~= abs_path@.take(name_start(abs_path@) + pos));
            String::from_str(head).concat(".txt")
        },
        None => String::new().concat(".txt"),
    }
}

/// A path that exists passes the checks exactly when it is a trackable
/// file.
pub proof fn lemma_validation_agrees(path: Seq<char>)
    ensures
        validation_spec(path, true) is Ok <==> valid_file_spec(path),
        validation_spec(path, false) == Err::<(), ValidationError>(ValidationError::FileNotFound),
{
}

/// A trackable file always has a way to be embedded, and an untrackable one
/// never has.
pub proof fn lemma_embedding_kind_supported(path: Seq<char>)
    ensures
        (embedding_kind_spec(path) != EmbeddingKind::Unsupported) <==> valid_file_spec(path),
{
}

/// The text extracted from a PDF is written to a path that is itself
/// tracked as plain text.
pub proof fn lemma_pdf_text_path_is_text(path: Seq<char>)
    requires
        extension(path) is Some,
    ensures
        extension(stem(path) + ".txt"@) == Some(".txt"@),
        embedding_kind_spec(stem(path) + ".txt"@) == EmbeddingKind::GeneralText,
{
    let st = stem(path);
    let p = st + ".txt"@;
    let k = name_start(path);
    let name = file_name_of(path);
    path.index_of_last_ensures('/');
    name.index_of_first_ensures('.');
    reveal_strlit(".txt");
    let i = name.index_of_first('.').unwrap();
    assert(st == path.take(k + i));
    // the stem holds no `/` after position k, and no `.` after it
    assert(p[st.len() as int] == '.');
    assert forall|j: int| k <= j < p.len() implies p[j] != '/' by {
        if j < st.len() {
            assert(p[j] == path[j]);
        }
    }
    if k > 0 {
        assert(p[k - 1] == '/');
    }
    p.index_of_last_ensures('/');
    assert(name_start(p) == k);
    let pn = file_name_of(p);
    assert(pn[i] == '.');
    pn.index_of_first_ensures('.');
    let pi = pn.index_of_first('.').unwrap();
    if pi < i {
        assert(name[pi] == '.');
    }
    assert(pi == i);
    assert(p.skip(k + i) =~= ".txt"@);
}

/// A file is trackable exactly when its extension is one of `.txt`, `.md`,
/// `.csv`, `.json`, `.tsv`, `.xml`, `.pdf`, `.doc`, `.jpg`, `.jpeg` and
/// `.png`; a path that exists passes the checks exactly then.
pub proof fn lemma_trackable_extensions(path: Seq<char>)
    ensures
        valid_file_spec(path) <==> (extension(path) matches Some(e) && (e == ".txt"@ || e
            == ".md"@ || e == ".csv"@ || e == ".json"@ || e == ".tsv"@ || e == ".xml"@ || e
            == ".pdf"@ || e == ".doc"@ || e == ".jpg"@ || e == ".jpeg"@ || e == ".png"@)),
        validation_spec(path, true) is Ok <==> valid_file_spec(path),
{
}

proof fn lemma_extension_literals_differ()
    ensures
        ".jpg"@ != ".txt"@ && ".jpg"@ != ".md"@ && ".jpg"@ != ".csv"@ && ".jpg"@ != ".json"@
            && ".jpg"@ != ".tsv"@ && ".jpg"@ != ".xml"@ && ".jpg"@ != ".pdf"@ && ".jpg"@
            != ".doc"@,
        ".jpeg"@ != ".txt"@ && ".jpeg"@ != ".md"@ && ".jpeg"@ != ".csv"@ && ".jpeg"@ != ".json"@
            && ".jpeg"@ != ".tsv"@ && ".jpeg"@ != ".xml"@ && ".jpeg"@ != ".pdf"@ && ".jpeg"@
            != ".doc"@,
        ".png"@ != ".txt"@ && ".png"@ != ".md"@ && ".png"@ != ".csv"@ && ".png"@ != ".json"@
            && ".png"@ != ".tsv"@ && ".png"@ != ".xml"@ && ".png"@ != ".pdf"@ && ".png"@
            != ".doc"@,
        ".pdf"@ != ".txt"@ && ".pdf"@ != ".md"@ && ".pdf"@ != ".csv"@ && ".pdf"@ != ".json"@
            && ".pdf"@ != ".tsv"@ && ".pdf"@ != ".xml"@ && ".pdf"@ != ".doc"@,
        ".doc"@ != ".txt"@ && ".doc"@ != ".md"@ && ".doc"@ != ".csv"@ && ".doc"@ != ".json"@
            && ".doc"@ != ".tsv"@ && ".doc"@ != ".xml"@,
{
    reveal_strlit(".txt");
    reveal_strlit(".md");
    reveal_strlit(".csv");
    reveal_strlit(".json");
    reveal_strlit(".tsv");
    reveal_strlit(".xml");
    reveal_strlit(".pdf");
    reveal_strlit(".doc");
    reveal_strlit(".jpg");
    reveal_strlit(".jpeg");
    reveal_strlit(".png");
    assert(".jpg"@[1] != ".txt"@[1] && ".jpg"@[1] != ".md"@[1] && ".jpg"@[1] != ".csv"@[1]);
    assert(".jpg"@[1] != ".tsv"@[1] && ".jpg"@[1] != ".xml"@[1] && ".jpg"@[1] != ".pdf"@[1]);
    assert(".jpg"@[1] != ".doc"@[1] && ".jpg"@.len() != ".json"@.len());
    assert(".jpeg"@.len() != ".txt"@.len() && ".jpeg"@.len() != ".md"@.len());
    assert(".jpeg"@.len() != ".csv"@.len() && ".jpeg"@[2] != ".json"@[2]);
    assert(".jpeg"@.len() != ".tsv"@.len() && ".jpeg"@.len() != ".xml"@.len());
    assert(".jpeg"@.len() != ".pdf"@.len() && ".jpeg"@.len() != ".doc"@.len());
    assert(".png"@[1] != ".txt"@[1] && ".png"@[1] != ".md"@[1] && ".png"@[1] != ".csv"@[1]);
    assert(".png"@[1] != ".tsv"@[1] && ".png"@[1] != ".xml"@[1] && ".png"@[2] != ".pdf"@[2]);
    assert(".png"@[1] != ".doc"@[1] && ".png"@.len() != ".json"@.len());
    assert(".pdf"@[1] != ".txt"@[1] && ".pdf"@[1] != ".md"@[1] && ".pdf"@[1] != ".csv"@[1]);
    assert(".pdf"@[1] != ".tsv"@[1] && ".pdf"@[1] != ".xml"@[1] && ".pdf"@[1] != ".doc"@[1]);
    assert(".pdf"@.len() != ".json"@.len());
    assert(".doc"@[1] != ".txt"@[1] && ".doc"@[1] != ".md"@[1] && ".doc"@[1] != ".csv"@[1]);
    assert(".doc"@[1] != ".tsv"@[1] && ".doc"@[1] != ".xml"@[1] && ".doc"@.len() != ".json"@.len());
}

/// Files with the extension `.jpg`, `.jpeg` or `.png` are embedded as
/// images, `.pdf` as PDFs and `.doc` as Word documents; exactly the files
/// with `.txt`, `.md`, `.csv`, `.json`, `.tsv` or `.xml` are read as text;
/// every other path has no way to be embedded.
pub proof fn lemma_embedding_kind_by_extension(path: Seq<char>)
    ensures
        extension(path) matches Some(e) && (e == ".jpg"@ || e == ".jpeg"@ || e == ".png"@)
            ==> embedding_kind_spec(path) == EmbeddingKind::Image,
        extension(path) == Some(".pdf"@) ==> embedding_kind_spec(path) == EmbeddingKind::Pdf,
        extension(path) == Some(".doc"@) ==> embedding_kind_spec(path) == EmbeddingKind::Doc,
        embedding_kind_spec(path) == EmbeddingKind::GeneralText <==> (extension(path) matches Some(
            e,
        ) && (e == ".txt"@ || e == ".md"@ || e == ".csv"@ || e == ".json"@ || e == ".tsv"@ || e
            == ".xml"@)),
        embedding_kind_spec(path) == EmbeddingKind::Unsupported <==> !(extension(path) matches Some(
            e,
        ) && (e == ".txt"@ || e == ".md"@ || e == ".csv"@ || e == ".json"@ || e == ".tsv"@ || e
            == ".xml"@ || e == ".pdf"@ || e == ".doc"@ || e == ".jpg"@ || e == ".jpeg"@ || e
            == ".png"@)),
{
    lemma_extension_literals_differ();
}

/// The checks report a missing file first; a missing extension exactly
/// when the path has no `.`; and otherwise accept exactly the trackable
/// files, reporting every other path as of an invalid type.
pub proof fn lemma_validation_outcomes(path: Seq<char>, exists: bool)
    ensures
        validation_spec(path, exists) == Err::<(), ValidationError>(ValidationError::FileNotFound)
            <==> !exists,
        validation_spec(path, exists) == Err::<(), ValidationError>(
            ValidationError::MissingExtension,
        ) <==> exists && !path.contains('.'),
        validation_spec(path, exists) == Err::<(), ValidationError>(ValidationError::InvalidType)
            <==> exists && path.contains('.') && !valid_file_spec(path),
        validation_spec(path, exists) is Ok <==> exists && valid_file_spec(path),
{
    if extension(path) is Some {
        let k = name_start(path);
        let name = file_name_of(path);
        path.index_of_last_ensures('/');
        name.index_of_first_ensures('.');
        let i = name.index_of_first('.').unwrap();
        assert(path[k + i] == name[i]);
    }
}

/// The extension of a path is the end of its file name that starts at the
/// name's first `.`: it starts with `.`, holds no `/`, and the path is its
/// stem followed by it.
pub proof fn lemma_extension_shape(path: Seq<char>)
    ensures
        extension(path) matches Some(e) ==> {
            &&& e.len() > 0
            &&& e[0] == '.'
            &&& !e.contains('/')
            &&& path == stem(path) + e
            &&& !file_name_of(stem(path)).contains('.')
        },
        extension(path) is None ==> !file_name_of(path).contains('.'),
{
    let k = name_start(path);
    let name = file_name_of(path);
    path.index_of_last_ensures('/');
    name.index_of_first_ensures('.');
    if let Some(e) = extension(path) {
        let i = name.index_of_first('.').unwrap();
        let st = stem(path);
        assert(e[0] == name[i]);
        if e.contains('/') {
            let w = choose|w: int| 0 <= w < e.len() && e[w] == '/';
            assert(path[k + i + w] == '/');
        }
        assert(path =~= st + e);
        st.index_of_last_ensures('/');
        if k > 0 {
            assert(st[k - 1] == '/');
        }
        assert forall|j: int| k <= j < st.len() implies st[j] != '/' by {
            assert(st[j] == path[j]);
        }
        assert(name_start(st) == k);
        let sn = file_name_of(st);
        if sn.contains('.') {
            let w = choose|w: int| 0 <= w < sn.len() && sn[w] == '.';
            assert(name[w] == '.');
        }
    }
}

/// The file name is the end of the path after its last `/`: it holds no
/// `/`, and the path is the name when it has no `/`, or otherwise ends in
/// `/` followed by the name.
pub proof fn lemma_file_name_shape(path: Seq<char>)
    ensures
        !file_name_of(path).contains('/'),
        !path.contains('/') ==> file_name_of(path) == path,
        path.contains('/') ==> {
            let k = path.len() - file_name_of(path).len();
            &&& k >= 1
            &&& path[k - 1] == '/'
            &&& path.skip(k) == file_name_of(path)
        },
{
    path.index_of_last_ensures('/');
    let name = file_name_of(path);
    if name.contains('/') {
        let w = choose|w: int| 0 <= w < name.len() && name[w] == '/';
        assert(path[name_start(path) + w] == '/');
    }
    if !path.contains('/') {
        assert(name =~= path);
    }
}

} // verus!
