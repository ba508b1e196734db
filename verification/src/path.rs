use vstd::prelude::*;

verus! {

/// What `std::path::Path::parent` returns for the path spelled by `path`
/// (its characters), as characters; `None` where the path ends in a root
/// or prefix, or is empty.
pub uninterp spec fn path_parent(path: Seq<char>) -> Option<Seq<char>>;

/// The characters of an optional string.
pub open spec fn opt_chars(s: Option<String>) -> Option<Seq<char>> {
    match s {
        Some(t) => Some(t@),
        None => None,
    }
}

/// The result of [`keep_non_empty`] on a parent path.
pub open spec fn spec_keep_non_empty(parent: Option<Seq<char>>) -> Option<Seq<char>> {
    match parent {
        Some(p) => if p.len() > 0 { Some(p) } else { None },
        None => None,
    }
}

/// The directory that holds `path`, where it names one: the parent of the
/// path, unless that parent is empty (a bare file name) or missing.
pub open spec fn spec_directory(path: Option<Seq<char>>) -> Option<Seq<char>> {
    match path {
        Some(p) => spec_keep_non_empty(path_parent(p)),
        None => None,
    }
}

/// Calls `std::path::Path::new(path).parent()`; the contract claims that the
/// result is [`path_parent`] of the characters of `path`.
#[verifier::external_body]
fn parent_of(path: &str) -> (parent: Option<String>)
    ensures
        match parent {
            Some(q) => path_parent(path@) == Some(q@),
            None => path_parent(path@) is None,
        },
{
    match std::path::Path::new(path).parent() {
        Some(q) => Some(q.to_string_lossy().into_owned()),
        None => None,
    }
}

/// Drops a parent path that is empty: a bare file name has no directory.
pub fn keep_non_empty(parent: Option<String>) -> (dir: Option<String>)
    ensures
        match dir {
            Some(d) => spec_keep_non_empty(opt_chars(parent)) == Some(d@),
            None => spec_keep_non_empty(opt_chars(parent)) is None,
        },
{
    match parent {
        Some(q) => {
            if q.as_str().is_empty() {
                None
            } else {
                Some(q)
            }
        },
        None => None,
    }
}

/// The directory part of an optional path: `None` for no path, for a path
/// without a parent and for a bare file name.
pub fn directory(path: &Option<String>) -> (dir: Option<String>)
    ensures
        match dir {
            Some(d) => spec_directory(opt_chars(*path)) == Some(d@),
            None => spec_directory(opt_chars(*path)) is None,
        },
{
    match path {
        Some(p) => keep_non_empty(parent_of(p.as_str())),
        None => None,
    }
}

/// The decimal digits of `n`, most significant first.
pub open spec fn decimal(n: nat) -> Seq<char>
    decreases n,
{
    if n < 10 {
        seq![(48 + n) as char]
    } else {
        decimal(n / 10) + seq![(48 + n % 10) as char]
    }
}

/// The text of the decimal digit `d`.
fn digit_text(d: u64) -> (t: &'static str)
    requires
        d < 10,
    ensures
        t@ == seq![(48 + d) as char],
{
    proof {
        reveal_strlit("0");
        reveal_strlit("1");
        reveal_strlit("2");
        reveal_strlit("3");
        reveal_strlit("4");
        reveal_strlit("5");
        reveal_strlit("6");
        reveal_strlit("7");
        reveal_strlit("8");
        reveal_strlit("9");
    }
    if d == 0 {
        "0"
    } else if d == 1 {
        "1"
    } else if d == 2 {
        "2"
    } else if d == 3 {
        "3"
    } else if d == 4 {
        "4"
    } else if d == 5 {
        "5"
    } else if d == 6 {
        "6"
    } else if d == 7 {
        "7"
    } else if d == 8 {
        "8"
    } else {
        "9"
    }
}

/// The decimal digits of `n`, most significant first, as `u64::to_string`
/// writes them.
fn number_text(n: u64) -> (s: String)
    ensures
        s@ == decimal(n as nat),
    decreases n,
{
    if n < 10 {
        digit_text(n).to_owned()
    } else {
        let mut s = number_text(n / 10);
        s.append(digit_text(n % 10));
        s
    }
}

/// The file name tried for the `number`-th attempt at a fresh output file:
/// the stem, then `-` and the number from the second attempt on, then `.`
/// and the extension where there is one.
pub open spec fn spec_template_name(stem: Seq<char>, extension: Option<Seq<char>>, number: nat) -> Seq<
    char,
> {
    let numbered = if number > 1 {
        stem + seq!['-'] + decimal(number)
    } else {
        stem
    };
    match extension {
        Some(e) => numbered + seq!['.'] + e,
        None => numbered,
    }
}

/// The file name for the `number`-th attempt at a fresh output file named
/// after an input whose stem and extension are given.
pub fn template_name(stem: &str, extension: Option<&str>, number: u64) -> (name: String)
    ensures
        name@ == spec_template_name(
            stem@,
            match extension {
                Some(e) => Some(e@),
                None => None,
            },
            number as nat,
        ),
{
    let mut name = stem.to_owned();
    if number > 1 {
        let dash = "-";
        proof {
            reveal_strlit("-");
        }
        name.append(dash);
        let digits = number_text(number);
        name.append(digits.as_str());
    }
    match extension {
        Some(e) => {
            let dot = ".";
            proof {
                reveal_strlit(".");
            }
            name.append(dot);
            name.append(e);
        },
        None => {},
    }
    name
}

/// What `std::path::Path::file_stem` returns for the path spelled by
/// `path`, as characters: the final component without its extension;
/// `None` where there is no file name.
pub uninterp spec fn path_stem(path: Seq<char>) -> Option<Seq<char>>;

/// What `std::path::Path::extension` returns for the path spelled by
/// `path`, as characters: what follows the last `.` of the file name;
/// `None` where there is none.
pub uninterp spec fn path_extension(path: Seq<char>) -> Option<Seq<char>>;

/// Calls `std::path::Path::new(path).file_stem()`; the contract claims that
/// the result is [`path_stem`] of the characters of `path`.
#[verifier::external_body]
fn stem_of(path: &str) -> (stem: Option<String>)
    ensures
        match stem {
            Some(q) => path_stem(path@) == Some(q@),
            None => path_stem(path@) is None,
        },
{
    match std::path::Path::new(path).file_stem() {
        Some(q) => Some(q.to_string_lossy().into_owned()),
        None => None,
    }
}

/// Calls `std::path::Path::new(path).extension()`; the contract claims that
/// the result is [`path_extension`] of the characters of `path`.
#[verifier::external_body]
fn extension_of(path: &str) -> (extension: Option<String>)
    ensures
        match extension {
            Some(q) => path_extension(path@) == Some(q@),
            None => path_extension(path@) is None,
        },
{
    match std::path::Path::new(path).extension() {
        Some(q) => Some(q.to_string_lossy().into_owned()),
        None => None,
    }
}

/// The name of the `number`-th attempt at a fresh output file named after
/// `template`: its stem, numbered from the second attempt on, and its
/// extension where it has one; `None` where it has no file name.
pub open spec fn spec_output_name(template: Seq<char>, number: nat) -> Option<Seq<char>> {
    match path_stem(template) {
        Some(stem) => Some(spec_template_name(stem, path_extension(template), number)),
        None => None,
    }
}

/// The name of the `number`-th attempt at a fresh output file named after
/// the path `template`, which must have a file name.
pub fn output_name(template: &str, number: u64) -> (name: String)
    requires
        path_stem(template@) is Some,
    ensures
        spec_output_name(template@, number as nat) == Some(name@),
{
    let stem = stem_of(template);
    let extension = extension_of(template);
    match stem {
        Some(stem) => match extension {
            Some(e) => template_name(stem.as_str(), Some(e.as_str()), number),
            None => template_name(stem.as_str(), None, number),
        },
        None => String::new(),
    }
}

/// The name of the `number`-th attempt at a fresh output file named after
/// the path `template`; `None` where the path has no file name.
pub fn try_output_name(template: &str, number: u64) -> (name: Option<String>)
    ensures
        match name {
            Some(n) => spec_output_name(template@, number as nat) == Some(n@),
            None => spec_output_name(template@, number as nat) is None,
        },
{
    match stem_of(template) {
        Some(_) => Some(output_name(template, number)),
        None => None,
    }
}

} // verus!
