//! Names and places of the files of the Silesia corpus, which benchmarks and
//! tests compress
use vstd::prelude::*;

use crate::data::push_str;

verus! {

/// Directory that holds the corpus
pub const CORPUS_DIR: &'static str = "testing_corpus";

/// Name of the downloaded archive of the corpus
pub const SILESIA_ZIP: &'static str = "silesia.zip";

/// Name of the file that marks the corpus as prepared
pub const MARKER_FILE: &'static str = "corpus_prepared.txt";

/// Contents of the marker file
pub const MARKER_CONTENTS: &'static str = "This is an automatically generated file to mark that the corpus has been prepared for tests and benchmarks. Delete it to regenerate the files.";

/// Directory of the uncompressed files, under [CORPUS_DIR]
pub const UNCOMPRESSED_DIR: &'static str = "uncompressed";

/// Directory of the compressed files, under [CORPUS_DIR]
pub const COMPRESSED_DIR: &'static str = "compressed";

/// Where the corpus is downloaded from
pub const SILESIA_CORPUS_URL: &'static str = "https://sun.aei.polsl.pl/~sdeor/corpus/silesia.zip";

/// Names of the files of the corpus
pub open spec fn silesia_names() -> Seq<Seq<char>> {
    seq![
        "dickens"@,
        "mozilla"@,
        "mr"@,
        "nci"@,
        "ooffice"@,
        "osdb"@,
        "reymont"@,
        "samba"@,
        "sao"@,
        "webster"@,
        "x-ray"@,
        "xml"@,
    ]
}

/// Is `file` the name of a file of the corpus
fn is_corpus_file(file: &str) -> (r: bool)
    ensures
        r == silesia_names().contains(file@),
{
    let names: [&str; 12] = [
        "dickens",
        "mozilla",
        "mr",
        "nci",
        "ooffice",
        "osdb",
        "reymont",
        "samba",
        "sao",
        "webster",
        "x-ray",
        "xml",
    ];
    assert(forall|k: int| 0 <= k < 12 ==> #[trigger] names@[k]@ == silesia_names()[k]);
    let wanted = file.to_owned();
    let mut i: usize = 0;
    while i < 12
        invariant
            i <= 12,
            wanted@ == file@,
            forall|k: int| 0 <= k < 12 ==> #[trigger] names@[k]@ == silesia_names()[k],
            forall|k: int| 0 <= k < i ==> silesia_names()[k] != file@,
        decreases 12 - i,
    {
        let name = names[i].to_owned();
        if name == wanted {
            assert(silesia_names()[i as int] == file@);
            return true;
        }
        i += 1;
    }
    assert forall|k: int| 0 <= k < silesia_names().len() implies silesia_names()[k] != file@ by {}
    false
}

/// The path, with `/` between its parts, of `file` in the directory `dir` of
/// the corpus
pub open spec fn corpus_path(dir: Seq<char>, file: Seq<char>) -> Seq<char> {
    CORPUS_DIR@ + "/"@ + dir + "/"@ + file
}

/// The path of `file` in the directory `dir` of the corpus
fn corpus_file_path(dir: &str, file: &str) -> (path: String)
    ensures
        path@ == corpus_path(dir@, file@),
{
    let mut path = CORPUS_DIR.to_owned();
    push_str(&mut path, "/");
    push_str(&mut path, dir);
    push_str(&mut path, "/");
    push_str(&mut path, file);
    path
}

/// Path of the uncompressed corpus file `file`, `None` if `file` is not a
/// file of the corpus
pub fn get_uncompressed_file(file: &str) -> (r: Option<String>)
    ensures
        r is Some <==> silesia_names().contains(file@),
        r matches Some(path) ==> path@ == corpus_path(UNCOMPRESSED_DIR@, file@),
{
    if !is_corpus_file(file) {
        return None;
    }
    Some(corpus_file_path(UNCOMPRESSED_DIR, file))
}

/// Path of the compressed corpus file `file`, `None` if `file` is not a file
/// of the corpus
pub fn get_compressed_file(file: &str) -> (r: Option<String>)
    ensures
        r is Some <==> silesia_names().contains(file@),
        r matches Some(path) ==> path@ == corpus_path(COMPRESSED_DIR@, file@),
{
    if !is_corpus_file(file) {
        return None;
    }
    Some(corpus_file_path(COMPRESSED_DIR, file))
}

} // verus!
