//! Choosing a text format for a configuration file by its extension.
use vstd::prelude::*;

verus! {

broadcast use vstd::seq::group_seq_axioms;

/// The text formats a configuration file can be written in.
#[derive(Debug, PartialEq, Eq, Structural, Clone, Copy)]
pub enum Format {
    Json,
    Toml,
    Yaml,
}

/// What can go wrong with a configuration file.
#[derive(Debug)]
pub enum Error {
    /// The file's text could not be read or written in its format.
    ParseError(String),
    /// The file could not be read or written.
    IoError(String),
    /// The file's extension names no known format: the extension, if any, and the path.
    InvalidFileType(Option<String>, String),
}

impl Error {
    /// The error for a path whose extension names no known format.
    pub fn invalid_file_type(extension: Option<String>, path: &str) -> (r: Error)
        ensures
            r matches Error::InvalidFileType(e, p) && e == extension && p@ == path@,
    {
        Error::InvalidFileType(extension, String::from_str(path))
    }
}

/// The position of the last `c` in `s`.
pub open spec fn last_index(s: Seq<char>, c: char) -> Option<int> {
    if exists|i: int| 0 <= i < s.len() && s[i] == c && forall|j: int| i < j < s.len() ==> s[j] != c {
        Some(
            choose|i: int|
                0 <= i < s.len() && s[i] == c && forall|j: int| i < j < s.len() ==> s[j] != c,
        )
    } else {
        None
    }
}

/// The final component of a path: what follows its last `/`.
pub open spec fn file_name(p: Seq<char>) -> Seq<char> {
    match last_index(p, '/') {
        Some(i) => p.subrange(i + 1, p.len() as int),
        None => p,
    }
}

/// The extension of a path: what follows the last `.` of its final component,
/// when that dot is not the component's first character; `..` has none.
pub open spec fn extension(p: Seq<char>) -> Option<Seq<char>> {
    let name = file_name(p);
    if name == seq!['.', '.'] {
        None
    } else {
        match last_index(name, '.') {
            Some(d) => if d > 0 {
                Some(name.subrange(d + 1, name.len() as int))
            } else {
                None
            },
            None => None,
        }
    }
}

/// The format that an extension names.
pub open spec fn format_named(ext: Seq<char>) -> Option<Format> {
    if ext == "json"@ {
        Some(Format::Json)
    } else if ext == "toml"@ {
        Some(Format::Toml)
    } else if ext == "yaml"@ || ext == "yml"@ {
        Some(Format::Yaml)
    } else {
        None
    }
}

fn find_last(s: &str, c: char) -> (r: Option<usize>)
    ensures
        match last_index(s@, c) {
            Some(i) => r == Some(i as usize),
            None => r is None,
        },
{
    let n = s.unicode_len();
    let mut i: usize = n;
    while i > 0
        invariant
            n == s@.len(),
            i <= n,
            forall|j: int| i <= j < n ==> s@[j] != c,
        decreases i,
    {
        if s.get_char(i - 1) == c {
            let ghost k = (i - 1) as int;
            assert(0 <= k < s@.len() && s@[k] == c && forall|j: int| k < j < s@.len() ==> s@[j] != c);
            let ghost w = choose|w: int|
                0 <= w < s@.len() && s@[w] == c && forall|j: int| w < j < s@.len() ==> s@[j] != c;
            assert(w == k) by {
                if w < k {
                    assert(s@[k] != c);
                } else if w > k {
                    assert(s@[w] != c);
                }
            }
            return Some(i - 1);
        }
        i = i - 1;
    }
    None
}

/// The extension of `path`, as [`extension`] defines it.
pub fn extension_of(path: &str) -> (r: Option<String>)
    ensures
        match extension(path@) {
            Some(e) => r is Some && r->Some_0@ == e,
            None => r is None,
        },
{
    let n = path.unicode_len();
    let name = match find_last(path, '/') {
        Some(i) => path.substring_char(i + 1, n),
        None => path,
    };
    let m = name.unicode_len();
    if m == 2 && name.get_char(0) == '.' && name.get_char(1) == '.' {
        assert(name@ =~= seq!['.', '.']);
        return None;
    }
    match find_last(name, '.') {
        Some(d) => if d > 0 {
            Some(String::from_str(name.substring_char(d + 1, m)))
        } else {
            None
        },
        None => None,
    }
}

/// The format that `path`'s extension names, or the error that carries the
/// extension and the path.
pub fn format_of(path: &str) -> (r: Result<Format, Error>)
    ensures
        match extension(path@) {
            Some(e) => match format_named(e) {
                Some(f) => r == Ok::<Format, Error>(f),
                None => r matches Err(Error::InvalidFileType(Some(x), p)) && x@ == e && p@
                    == path@,
            },
            None => r matches Err(Error::InvalidFileType(None, p)) && p@ == path@,
        },
{
    proof {
        reveal_strlit("json");
        reveal_strlit("toml");
        reveal_strlit("yaml");
        reveal_strlit("yml");
    }
    match extension_of(path) {
        None => Err(Error::invalid_file_type(None, path)),
        Some(ext) => {
            let e = ext.as_str();
            let n = e.unicode_len();
            if n == 4 && e.get_char(0) == 'j' && e.get_char(1) == 's' && e.get_char(2) == 'o'
                && e.get_char(3) == 'n' {
                assert(e@ =~= "json"@);
                Ok(Format::Json)
            } else if n == 4 && e.get_char(0) == 't' && e.get_char(1) == 'o' && e.get_char(2)
                == 'm' && e.get_char(3) == 'l' {
                assert(e@ =~= "toml"@);
                Ok(Format::Toml)
            } else if n == 4 && e.get_char(0) == 'y' && e.get_char(1) == 'a' && e.get_char(2)
                == 'm' && e.get_char(3) == 'l' {
                assert(e@ =~= "yaml"@);
                Ok(Format::Yaml)
            } else if n == 3 && e.get_char(0) == 'y' && e.get_char(1) == 'm' && e.get_char(2)
                == 'l' {
                assert(e@ =~= "yml"@);
                Ok(Format::Yaml)
            } else {
                assert(e@ != "json"@);
                assert(e@ != "toml"@);
                assert(e@ != "yaml"@);
                assert(e@ != "yml"@);
                Err(Error::invalid_file_type(Some(ext), path))
            }
        },
    }
}

} // verus!
