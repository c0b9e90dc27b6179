//! Telling text files from binary ones, by extension and by the first bytes.

use vstd::prelude::*;

use crate::paths::{extension, extension_of};
use crate::text::{is_one_of, lowercase, same_text, make_lowercase};

verus! {

/// How many bytes of a file are looked at.
pub const PROBE_BYTES: usize = 8192;

/// Extensions of files that are taken for binary without looking inside.
pub open spec fn binary_extensions() -> Seq<&'static str> {
    seq![
        "png", "jpg", "jpeg", "gif", "bmp", "ico", "webp", "tiff", "svg", "pdf", "doc", "docx", "xls",
        "xlsx", "ppt", "pptx", "zip", "gz", "tar", "bz2", "xz", "zst", "7z", "rar", "exe", "dll", "so",
        "dylib", "a", "lib", "wasm", "mp3", "mp4", "wav", "ogg", "flac", "avi", "mkv", "mov", "ttf",
        "otf", "woff", "woff2", "eot", "db", "sqlite", "sqlite3", "bin", "dat", "class", "pyc", "pyo",
    ]
}

/// Extensions of files that are taken for text without looking inside.
pub open spec fn text_extensions() -> Seq<&'static str> {
    seq![
        "rs", "py", "js", "ts", "jsx", "tsx", "go", "c", "cpp", "cc", "cxx", "h", "hpp", "java", "kt",
        "swift", "cs", "rb", "php", "lua", "vim", "el", "clj", "cljs", "hs", "ml", "mli", "ex", "exs",
        "erl", "scala", "dart", "zig", "nim", "cr", "sh", "bash", "zsh", "fish", "ps1", "bat", "cmd",
        "md", "txt", "rst", "adoc", "org", "toml", "yaml", "yml", "json", "xml", "html", "htm", "css",
        "scss", "sass", "less", "ini", "cfg", "conf", "env", "properties", "sql", "graphql", "proto",
        "thrift", "tf", "hcl", "nix", "cmake", "make", "mk", "lock", "sum", "mod",
    ]
}

/// Whether `s` is one of the texts of `list`.
fn listed(list: &[&'static str], s: &str) -> (r: bool)
    ensures
        r == is_one_of(list@, s@),
{
    let mut i: usize = 0;
    while i < list.len()
        invariant
            i <= list@.len(),
            forall|k: int| 0 <= k < i ==> (#[trigger] list@[k])@ != s@,
        decreases list@.len() - i,
    {
        if same_text(list[i], s) {
            return true;
        }
        i += 1;
    }
    false
}

/// Whether an extension is that of a binary file.
#[verifier::rlimit(50)]
fn is_binary_extension(ext: &str) -> (r: bool)
    ensures
        r == is_one_of(binary_extensions(), ext@),
{
    let list = [
        "png", "jpg", "jpeg", "gif", "bmp", "ico", "webp", "tiff", "svg", "pdf", "doc", "docx", "xls",
        "xlsx", "ppt", "pptx", "zip", "gz", "tar", "bz2", "xz", "zst", "7z", "rar", "exe", "dll", "so",
        "dylib", "a", "lib", "wasm", "mp3", "mp4", "wav", "ogg", "flac", "avi", "mkv", "mov", "ttf",
        "otf", "woff", "woff2", "eot", "db", "sqlite", "sqlite3", "bin", "dat", "class", "pyc", "pyo",
    ];
    assert(list@ =~= binary_extensions());
    listed(list.as_slice(), ext)
}

/// Whether an extension is that of a text file.
#[verifier::rlimit(50)]
fn is_text_extension(ext: &str) -> (r: bool)
    ensures
        r == is_one_of(text_extensions(), ext@),
{
    let list = [
        "rs", "py", "js", "ts", "jsx", "tsx", "go", "c", "cpp", "cc", "cxx", "h", "hpp", "java", "kt",
        "swift", "cs", "rb", "php", "lua", "vim", "el", "clj", "cljs", "hs", "ml", "mli", "ex", "exs",
        "erl", "scala", "dart", "zig", "nim", "cr", "sh", "bash", "zsh", "fish", "ps1", "bat", "cmd",
        "md", "txt", "rst", "adoc", "org", "toml", "yaml", "yml", "json", "xml", "html", "htm", "css",
        "scss", "sass", "less", "ini", "cfg", "conf", "env", "properties", "sql", "graphql", "proto",
        "thrift", "tf", "hcl", "nix", "cmake", "make", "mk", "lock", "sum", "mod",
    ];
    assert(list@ =~= text_extensions());
    listed(list.as_slice(), ext)
}

/// What the extension of a path says: `Some(true)` for binary, `Some(false)` for text,
/// nothing where the file must be looked at. The case of the extension does not matter.
pub open spec fn extension_verdict(path: Seq<char>) -> Option<bool> {
    match extension_of(path) {
        Some(ext) => if is_one_of(binary_extensions(), lowercase(ext)) {
            Some(true)
        } else if is_one_of(text_extensions(), lowercase(ext)) {
            Some(false)
        } else {
            None
        },
        None => None,
    }
}

/// How many bytes are zero.
pub open spec fn null_count(b: Seq<u8>) -> nat
    decreases b.len(),
{
    if b.len() == 0 {
        0
    } else if b.last() == 0 {
        null_count(b.drop_last()) + 1
    } else {
        null_count(b.drop_last())
    }
}

/// What the first bytes of a file say: binary if more than three in a thousand are zero, or
/// if there are none because the file could not be read.
pub open spec fn content_verdict(head: Option<Seq<u8>>) -> bool {
    match head {
        Some(b) => null_count(b) * 1000 > b.len() * 3,
        None => true,
    }
}

/// What the extension of a path says about the file.
pub fn binary_by_extension(path: &str) -> (r: Option<bool>)
    ensures
        r == extension_verdict(path@),
{
    match extension(path) {
        Some(ext) => {
            let low = make_lowercase(ext.as_str());
            if is_binary_extension(low.as_str()) {
                Some(true)
            } else if is_text_extension(low.as_str()) {
                Some(false)
            } else {
                None
            }
        },
        None => None,
    }
}

/// What the first bytes of a file say about it; `None` stands for a file that cannot be read.
pub fn binary_by_content(head: Option<&[u8]>) -> (r: bool)
    ensures
        r == content_verdict(
            match head {
                Some(b) => Some(b@),
                None => None,
            },
        ),
{
    let b = match head {
        Some(b) => b,
        None => {
            return true;
        },
    };
    let len: usize = b.len();
    let mut count: usize = 0;
    let mut i: usize = 0;
    while i < len
        invariant
            i <= len == b@.len(),
            count <= i,
            count == null_count(b@.take(i as int)),
        decreases len - i,
    {
        assert(b@.take(i + 1).drop_last() =~= b@.take(i as int));
        if b[i] == 0 {
            count += 1;
        }
        i += 1;
    }
    assert(b@.take(len as int) =~= b@);
    (count as u128) * 1000 > (len as u128) * 3
}

/// Whether a file is likely binary. `head` holds its first bytes, or nothing where it cannot
/// be read; a listed extension decides without them.
pub fn is_likely_binary(path: &str, head: Option<&[u8]>) -> (r: bool)
    ensures
        r == (match extension_verdict(path@) {
            Some(v) => v,
            None => content_verdict(
                match head {
                    Some(b) => Some(b@),
                    None => None,
                },
            ),
        }),
{
    match binary_by_extension(path) {
        Some(v) => v,
        None => binary_by_content(head),
    }
}

/// First bytes without a zero byte among them say text.
pub proof fn no_nulls_is_text(b: Seq<u8>)
    requires
        forall|i: int| 0 <= i < b.len() ==> b[i] != 0,
    ensures
        !content_verdict(Some(b)),
{
    lemma_no_nulls(b);
}

proof fn lemma_no_nulls(b: Seq<u8>)
    requires
        forall|i: int| 0 <= i < b.len() ==> b[i] != 0,
    ensures
        null_count(b) == 0,
    decreases b.len(),
{
    if b.len() > 0 {
        lemma_no_nulls(b.drop_last());
    }
}

/// The extensions of pictures, documents, archives, programs, sound, video, fonts and
/// databases are binary, and no others.
#[verifier::rlimit(100)]
pub proof fn binary_extensions_are_these(s: Seq<char>)
    ensures
        is_one_of(binary_extensions(), s) <==> (
            s == "png"@ || s == "jpg"@ || s == "jpeg"@ || s == "gif"@ || s == "bmp"@
                || s == "ico"@ || s == "webp"@ || s == "tiff"@ || s == "svg"@ || s == "pdf"@
                || s == "doc"@ || s == "docx"@ || s == "xls"@ || s == "xlsx"@ || s == "ppt"@
                || s == "pptx"@ || s == "zip"@ || s == "gz"@ || s == "tar"@ || s == "bz2"@
                || s == "xz"@ || s == "zst"@ || s == "7z"@ || s == "rar"@ || s == "exe"@
                || s == "dll"@ || s == "so"@ || s == "dylib"@ || s == "a"@ || s == "lib"@
                || s == "wasm"@ || s == "mp3"@ || s == "mp4"@ || s == "wav"@ || s == "ogg"@
                || s == "flac"@ || s == "avi"@ || s == "mkv"@ || s == "mov"@ || s == "ttf"@
                || s == "otf"@ || s == "woff"@ || s == "woff2"@ || s == "eot"@ || s == "db"@
                || s == "sqlite"@ || s == "sqlite3"@ || s == "bin"@ || s == "dat"@
                || s == "class"@ || s == "pyc"@ || s == "pyo"@),
{
    let l = binary_extensions();
    assert(l[0]@ == "png"@);
    assert(l[1]@ == "jpg"@);
    assert(l[2]@ == "jpeg"@);
    assert(l[3]@ == "gif"@);
    assert(l[4]@ == "bmp"@);
    assert(l[5]@ == "ico"@);
    assert(l[6]@ == "webp"@);
    assert(l[7]@ == "tiff"@);
    assert(l[8]@ == "svg"@);
    assert(l[9]@ == "pdf"@);
    assert(l[10]@ == "doc"@);
    assert(l[11]@ == "docx"@);
    assert(l[12]@ == "xls"@);
    assert(l[13]@ == "xlsx"@);
    assert(l[14]@ == "ppt"@);
    assert(l[15]@ == "pptx"@);
    assert(l[16]@ == "zip"@);
    assert(l[17]@ == "gz"@);
    assert(l[18]@ == "tar"@);
    assert(l[19]@ == "bz2"@);
    assert(l[20]@ == "xz"@);
    assert(l[21]@ == "zst"@);
    assert(l[22]@ == "7z"@);
    assert(l[23]@ == "rar"@);
    assert(l[24]@ == "exe"@);
    assert(l[25]@ == "dll"@);
    assert(l[26]@ == "so"@);
    assert(l[27]@ == "dylib"@);
    assert(l[28]@ == "a"@);
    assert(l[29]@ == "lib"@);
    assert(l[30]@ == "wasm"@);
    assert(l[31]@ == "mp3"@);
    assert(l[32]@ == "mp4"@);
    assert(l[33]@ == "wav"@);
    assert(l[34]@ == "ogg"@);
    assert(l[35]@ == "flac"@);
    assert(l[36]@ == "avi"@);
    assert(l[37]@ == "mkv"@);
    assert(l[38]@ == "mov"@);
    assert(l[39]@ == "ttf"@);
    assert(l[40]@ == "otf"@);
    assert(l[41]@ == "woff"@);
    assert(l[42]@ == "woff2"@);
    assert(l[43]@ == "eot"@);
    assert(l[44]@ == "db"@);
    assert(l[45]@ == "sqlite"@);
    assert(l[46]@ == "sqlite3"@);
    assert(l[47]@ == "bin"@);
    assert(l[48]@ == "dat"@);
    assert(l[49]@ == "class"@);
    assert(l[50]@ == "pyc"@);
    assert(l[51]@ == "pyo"@);
    if is_one_of(l, s) {
        let i = choose|i: int| 0 <= i < l.len() && (#[trigger] l[i])@ == s;
        assert(l[i]@ == s);
    }
}


/// The extensions of source code, scripts, prose, markup and configuration are text, and no
/// others.
#[verifier::rlimit(100)]
pub proof fn text_extensions_are_these(s: Seq<char>)
    ensures
        is_one_of(text_extensions(), s) <==> (
            s == "rs"@ || s == "py"@ || s == "js"@ || s == "ts"@ || s == "jsx"@ || s == "tsx"@
                || s == "go"@ || s == "c"@ || s == "cpp"@ || s == "cc"@ || s == "cxx"@
                || s == "h"@ || s == "hpp"@ || s == "java"@ || s == "kt"@ || s == "swift"@
                || s == "cs"@ || s == "rb"@ || s == "php"@ || s == "lua"@ || s == "vim"@
                || s == "el"@ || s == "clj"@ || s == "cljs"@ || s == "hs"@ || s == "ml"@
                || s == "mli"@ || s == "ex"@ || s == "exs"@ || s == "erl"@ || s == "scala"@
                || s == "dart"@ || s == "zig"@ || s == "nim"@ || s == "cr"@ || s == "sh"@
                || s == "bash"@ || s == "zsh"@ || s == "fish"@ || s == "ps1"@ || s == "bat"@
                || s == "cmd"@ || s == "md"@ || s == "txt"@ || s == "rst"@ || s == "adoc"@
                || s == "org"@ || s == "toml"@ || s == "yaml"@ || s == "yml"@ || s == "json"@
                || s == "xml"@ || s == "html"@ || s == "htm"@ || s == "css"@ || s == "scss"@
                || s == "sass"@ || s == "less"@ || s == "ini"@ || s == "cfg"@ || s == "conf"@
                || s == "env"@ || s == "properties"@ || s == "sql"@ || s == "graphql"@
                || s == "proto"@ || s == "thrift"@ || s == "tf"@ || s == "hcl"@ || s == "nix"@
                || s == "cmake"@ || s == "make"@ || s == "mk"@ || s == "lock"@ || s == "sum"@
                || s == "mod"@),
{
    let l = text_extensions();
    assert(l[0]@ == "rs"@);
    assert(l[1]@ == "py"@);
    assert(l[2]@ == "js"@);
    assert(l[3]@ == "ts"@);
    assert(l[4]@ == "jsx"@);
    assert(l[5]@ == "tsx"@);
    assert(l[6]@ == "go"@);
    assert(l[7]@ == "c"@);
    assert(l[8]@ == "cpp"@);
    assert(l[9]@ == "cc"@);
    assert(l[10]@ == "cxx"@);
    assert(l[11]@ == "h"@);
    assert(l[12]@ == "hpp"@);
    assert(l[13]@ == "java"@);
    assert(l[14]@ == "kt"@);
    assert(l[15]@ == "swift"@);
    assert(l[16]@ == "cs"@);
    assert(l[17]@ == "rb"@);
    assert(l[18]@ == "php"@);
    assert(l[19]@ == "lua"@);
    assert(l[20]@ == "vim"@);
    assert(l[21]@ == "el"@);
    assert(l[22]@ == "clj"@);
    assert(l[23]@ == "cljs"@);
    assert(l[24]@ == "hs"@);
    assert(l[25]@ == "ml"@);
    assert(l[26]@ == "mli"@);
    assert(l[27]@ == "ex"@);
    assert(l[28]@ == "exs"@);
    assert(l[29]@ == "erl"@);
    assert(l[30]@ == "scala"@);
    assert(l[31]@ == "dart"@);
    assert(l[32]@ == "zig"@);
    assert(l[33]@ == "nim"@);
    assert(l[34]@ == "cr"@);
    assert(l[35]@ == "sh"@);
    assert(l[36]@ == "bash"@);
    assert(l[37]@ == "zsh"@);
    assert(l[38]@ == "fish"@);
    assert(l[39]@ == "ps1"@);
    assert(l[40]@ == "bat"@);
    assert(l[41]@ == "cmd"@);
    assert(l[42]@ == "md"@);
    assert(l[43]@ == "txt"@);
    assert(l[44]@ == "rst"@);
    assert(l[45]@ == "adoc"@);
    assert(l[46]@ == "org"@);
    assert(l[47]@ == "toml"@);
    assert(l[48]@ == "yaml"@);
    assert(l[49]@ == "yml"@);
    assert(l[50]@ == "json"@);
    assert(l[51]@ == "xml"@);
    assert(l[52]@ == "html"@);
    assert(l[53]@ == "htm"@);
    assert(l[54]@ == "css"@);
    assert(l[55]@ == "scss"@);
    assert(l[56]@ == "sass"@);
    assert(l[57]@ == "less"@);
    assert(l[58]@ == "ini"@);
    assert(l[59]@ == "cfg"@);
    assert(l[60]@ == "conf"@);
    assert(l[61]@ == "env"@);
    assert(l[62]@ == "properties"@);
    assert(l[63]@ == "sql"@);
    assert(l[64]@ == "graphql"@);
    assert(l[65]@ == "proto"@);
    assert(l[66]@ == "thrift"@);
    assert(l[67]@ == "tf"@);
    assert(l[68]@ == "hcl"@);
    assert(l[69]@ == "nix"@);
    assert(l[70]@ == "cmake"@);
    assert(l[71]@ == "make"@);
    assert(l[72]@ == "mk"@);
    assert(l[73]@ == "lock"@);
    assert(l[74]@ == "sum"@);
    assert(l[75]@ == "mod"@);
    if is_one_of(l, s) {
        let i = choose|i: int| 0 <= i < l.len() && (#[trigger] l[i])@ == s;
        assert(l[i]@ == s);
    }
}


/// The extension decides, whatever its case, where it is a known one; a file with another
/// extension or without one must be looked at.
pub proof fn known_extensions_decide(path: Seq<char>)
    ensures
        extension_of(path) is None ==> extension_verdict(path) is None,
        extension_of(path) matches Some(e) ==> {
            &&& extension_verdict(path) == Some(true) <==> is_one_of(
                binary_extensions(),
                lowercase(e),
            )
            &&& extension_verdict(path) == Some(false) <==> !is_one_of(
                binary_extensions(),
                lowercase(e),
            ) && is_one_of(text_extensions(), lowercase(e))
        },
{
}

/// A file is binary by its first bytes if more than three in a thousand are zero, and if it
/// cannot be read.
pub proof fn zero_bytes_make_binary(b: Seq<u8>)
    ensures
        content_verdict(Some(b)) <==> b.to_multiset().count(0u8) * 1000 > b.len() * 3,
        content_verdict(None),
        PROBE_BYTES == 8192,
{
    lemma_null_count(b);
}

proof fn lemma_null_count(b: Seq<u8>)
    ensures
        null_count(b) == b.to_multiset().count(0u8),
    decreases b.len(),
{
    if b.len() == 0 {
        vstd::seq_lib::to_multiset_contains(b, 0u8);
    } else {
        let d = b.drop_last();
        lemma_null_count(d);
        vstd::seq_lib::to_multiset_build(d, b.last());
        assert(d.push(b.last()) =~= b);
    }
}

} // verus!
