//! Where an edited image is saved by default: next to the input, as
//! `<stem>_ddot.png`.
use vstd::prelude::*;

verus! {

/// The stem of the last component of `path`, as `Path::file_stem` finds it
/// (when it is valid UTF-8).
pub uninterp spec fn file_stem_of(path: Seq<char>) -> Option<Seq<char>>;

/// `path` with its last component replaced by `name`, as `Path::with_file_name` builds it.
pub uninterp spec fn with_file_name_of(path: Seq<char>, name: Seq<char>) -> Seq<char>;

/// The text of an optional string.
pub open spec fn opt_text(s: Option<&str>) -> Option<Seq<char>> {
    match s {
        Some(t) => Some(t@),
        None => None,
    }
}

/// The default output file name for an input with stem `stem`: the stem
/// followed by `_ddot.png`, or `output_ddot.png` when there is no stem or it is empty.
pub open spec fn output_name_for(stem: Option<Seq<char>>) -> Seq<char> {
    match stem {
        Some(s) => if s.len() > 0 {
            s + "_ddot.png"@
        } else {
            "output_ddot.png"@
        },
        None => "output_ddot.png"@,
    }
}

/// The stem of the file name of `path`.
///
/// Calls `Path::file_stem` and converts the stem to UTF-8 text. The
/// contract names the result; it claims nothing more of it.
#[verifier::external_body]
fn path_file_stem(path: &str) -> (stem: Option<String>)
    ensures
        match stem {
            Some(s) => file_stem_of(path@) == Some(s@),
            None => file_stem_of(path@) is None,
        },
{
    match std::path::Path::new(path).file_stem() {
        Some(os) => match os.to_str() {
            Some(s) => Some(s.to_string()),
            None => None,
        },
        None => None,
    }
}

/// `path` with its file name replaced by `name`.
///
/// Calls `Path::with_file_name`; both arguments are UTF-8, so the joined
/// path converts back to text without loss. The contract names the result.
#[verifier::external_body]
fn path_with_file_name(path: &str, name: &str) -> (joined: String)
    ensures
        joined@ == with_file_name_of(path@, name@),
{
    std::path::Path::new(path).with_file_name(name).to_string_lossy().into_owned()
}

/// The default output file name for an input whose stem is `stem`.
pub fn output_file_name(stem: Option<&str>) -> (name: String)
    ensures
        name@ == output_name_for(opt_text(stem)),
{
    match stem {
        Some(s) => {
            if s.is_empty() {
                String::from_str("output_ddot.png")
            } else {
                let mut name = String::from_str(s);
                name.append("_ddot.png");
                name
            }
        },
        None => String::from_str("output_ddot.png"),
    }
}

/// The default output path for `input`: `<stem>_ddot.png` in the same directory.
pub fn default_output_path(input: &str) -> (path: String)
    ensures
        path@ == with_file_name_of(input@, output_name_for(file_stem_of(input@))),
{
    let stem = path_file_stem(input);
    let name = match &stem {
        Some(s) => output_file_name(Some(s.as_str())),
        None => output_file_name(None),
    };
    path_with_file_name(input, name.as_str())
}

/// Every default output file name ends in `_ddot.png`.
pub proof fn law_output_name_suffix(stem: Option<Seq<char>>)
    ensures
        exists|prefix: Seq<char>| output_name_for(stem) == prefix + "_ddot.png"@,
{
    reveal_strlit("output_ddot.png");
    reveal_strlit("output");
    reveal_strlit("_ddot.png");
    let name = output_name_for(stem);
    match stem {
        Some(s) => {
            if s.len() > 0 {
                assert(name == s + "_ddot.png"@);
            } else {
                assert(name =~= "output"@ + "_ddot.png"@);
            }
        },
        None => {
            assert(name =~= "output"@ + "_ddot.png"@);
        },
    }
}

} // verus!
