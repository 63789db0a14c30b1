//! What the library knows of the operating system: its errors, and how to
//! read the name of the distribution.

use crate::identifier::{is_whitespace, whitespace};
use crate::text::{decimal, signed_text};
use vstd::prelude::*;
use vstd::string::{StrSliceExecFns, StringExecFns};

verus! {

/// What can go wrong in dealing with the operating system.
#[derive(Debug)]
pub enum OSError {
    /// An input or output operation failed: what was tried, and why it
    /// failed.
    IO { err: String, msg: String },
    /// A process ended with a status that says it failed, or was ended by a
    /// signal.
    BadExitStatus { code: Option<i32> },
    /// The file is there but is no directory.
    NotADirectory(String),
    /// The path has no file name.
    NoFileName(String),
}

impl OSError {
    /// The message of the error.
    pub open spec fn message(&self) -> Seq<char> {
        match self {
            OSError::IO { err, msg } => msg@ + ": "@ + err@,
            OSError::BadExitStatus { code: Some(code) } => "Process exited with status code "@
                + decimal(*code as int),
            OSError::BadExitStatus { code: None } => "Process terminated by a signal"@,
            OSError::NotADirectory(path) => "File `"@ + path@ + "` exists but is not a directory"@,
            OSError::NoFileName(path) => "Failed to obtain file name of `"@ + path@ + "`"@,
        }
    }

    /// The message of the error.
    pub fn to_string(&self) -> (s: String)
        ensures
            s@ == self.message(),
    {
        match self {
            OSError::IO { err, msg } => {
                let mut s = msg.clone();
                s.append(": ");
                s.append(err.as_str());
                s
            },
            OSError::BadExitStatus { code: Some(code) } => {
                let mut s = String::from_str("Process exited with status code ");
                let number = signed_text(*code as i64);
                s.append(number.as_str());
                s
            },
            OSError::BadExitStatus { code: None } => String::from_str(
                "Process terminated by a signal",
            ),
            OSError::NotADirectory(path) => {
                let mut s = String::from_str("File `");
                s.append(path.as_str());
                s.append("` exists but is not a directory");
                s
            },
            OSError::NoFileName(path) => {
                let mut s = String::from_str("Failed to obtain file name of `");
                s.append(path.as_str());
                s.append("`");
                s
            },
        }
    }
}

/// Where the text starts behind the white space that stands at `i`.
pub open spec fn skip_whitespace(s: Seq<char>, i: int) -> int
    decreases s.len() - i,
{
    if 0 <= i < s.len() && is_whitespace(s[i]) {
        skip_whitespace(s, i + 1)
    } else {
        i
    }
}

/// Where the text ends before the white space that stands before `j`, not
/// going below `lo`.
pub open spec fn back_whitespace(s: Seq<char>, lo: int, j: int) -> int
    decreases j,
{
    if 0 <= lo < j <= s.len() && is_whitespace(s[j - 1]) {
        back_whitespace(s, lo, j - 1)
    } else {
        j
    }
}

/// The text without the white space at its start and at its end.
pub open spec fn trimmed(s: Seq<char>) -> Seq<char> {
    let start = skip_whitespace(s, 0);
    s.subrange(start, back_whitespace(s, start, s.len() as int))
}

/// The line gives the name of the distribution: it starts with `ID=`.
pub open spec fn names_distro(line: Seq<char>) -> bool {
    line.len() >= 3 && line[0] == 'I' && line[1] == 'D' && line[2] == '='
}

/// The name of the distribution that the lines from `i` on give: what
/// follows `ID=` in the first line that starts so, without the white space
/// around it, and `linux` where no line starts so.
pub open spec fn distro_id_from(lines: Seq<String>, i: int) -> Seq<char>
    decreases lines.len() - i,
{
    if i < 0 || i >= lines.len() {
        "linux"@
    } else if names_distro(lines[i]@) {
        trimmed(lines[i]@.subrange(3, lines[i]@.len() as int))
    } else {
        distro_id_from(lines, i + 1)
    }
}

/// The text without the white space at its start and at its end.
pub fn trim(s: &str) -> (t: String)
    ensures
        t@ == trimmed(s@),
{
    let n = s.unicode_len();
    let mut start: usize = 0;
    loop
        invariant
            n == s@.len(),
            start <= n,
            skip_whitespace(s@, 0) == skip_whitespace(s@, start as int),
        ensures
            skip_whitespace(s@, 0) == start,
        decreases n - start,
    {
        if start >= n {
            break ;
        }
        if !whitespace(s.get_char(start)) {
            break ;
        }
        start += 1;
    }
    let mut end: usize = n;
    loop
        invariant
            n == s@.len(),
            start <= end <= n,
            back_whitespace(s@, start as int, n as int) == back_whitespace(
                s@,
                start as int,
                end as int,
            ),
        ensures
            back_whitespace(s@, start as int, n as int) == end,
        decreases end,
    {
        if end <= start {
            break ;
        }
        if !whitespace(s.get_char(end - 1)) {
            break ;
        }
        end -= 1;
    }
    String::from_str(s.substring_char(start, end))
}

/// The name of the distribution as the lines of the file `os-release`
/// give it: what follows `ID=` in the first line that starts so, without
/// the white space around it. Where no line starts so, it is `linux`.
pub fn get_distro_id(os_release: &Vec<String>) -> (id: String)
    ensures
        id@ == distro_id_from(os_release@, 0),
{
    let mut i: usize = 0;
    while i < os_release.len()
        invariant
            i <= os_release@.len(),
            distro_id_from(os_release@, 0) == distro_id_from(os_release@, i as int),
        decreases os_release@.len() - i,
    {
        let line = os_release[i].as_str();
        let n = line.unicode_len();
        if n >= 3 && line.get_char(0) == 'I' && line.get_char(1) == 'D' && line.get_char(2) == '=' {
            return trim(line.substring_char(3, n));
        }
        i += 1;
    }
    String::from_str("linux")
}

} // verus!
