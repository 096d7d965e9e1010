//! Helpers for reading human-readable channel strings: the scheme of a
//! channel URL, the path test, and the platforms a channel serves.

use vstd::prelude::*;

verus! {

/// An ASCII letter.
pub open spec fn is_ascii_letter(c: char) -> bool {
    ('a' as u32 <= c as u32 && c as u32 <= 'z' as u32) || ('A' as u32 <= c as u32 && c as u32
        <= 'Z' as u32)
}

/// An ASCII letter or digit.
pub open spec fn is_ascii_alnum(c: char) -> bool {
    is_ascii_letter(c) || ('0' as u32 <= c as u32 && c as u32 <= '9' as u32)
}

/// The separator `://` starts at position `i`.
pub open spec fn scheme_sep_at(s: Seq<char>, i: int) -> bool {
    0 <= i && i + 3 <= s.len() && s[i] == ':' && s[i + 1] == '/' && s[i + 2] == '/'
}

/// The separator `://` starts at position `i` and nowhere earlier.
pub open spec fn first_scheme_sep(s: Seq<char>, i: int) -> bool {
    scheme_sep_at(s, i) && forall|k: int| 0 <= k < i ==> !scheme_sep_at(s, k)
}

/// What stands before the separator is an acceptable scheme: at most eleven
/// characters, at least one, a letter first and letters or digits after.
pub open spec fn valid_scheme(s: Seq<char>, i: int) -> bool {
    1 <= i <= 11 && is_ascii_letter(s[0]) && forall|k: int| 1 <= k < i ==> is_ascii_alnum(
        #[trigger] s[k],
    )
}

/// Tests whether a character is an ASCII letter.
fn ascii_letter(c: char) -> (r: bool)
    ensures
        r == is_ascii_letter(c),
{
    let u = c as u32;
    ('a' as u32 <= u && u <= 'z' as u32) || ('A' as u32 <= u && u <= 'Z' as u32)
}

/// Tests whether a character is an ASCII letter or digit.
fn ascii_alnum(c: char) -> (r: bool)
    ensures
        r == is_ascii_alnum(c),
{
    let u = c as u32;
    ascii_letter(c) || ('0' as u32 <= u && u <= '9' as u32)
}

/// Parses the scheme part of a human-readable channel. Returns the scheme
/// part — what stands before the first `://` — if it exists and is
/// acceptable.
pub fn parse_scheme(channel: &str) -> (r: Option<&str>)
    ensures
        match r {
            Some(p) => exists|i: int|
                #[trigger] first_scheme_sep(channel@, i) && valid_scheme(channel@, i) && p@
                    == channel@.subrange(0, i),
            None => forall|i: int|
                #[trigger] first_scheme_sep(channel@, i) ==> !valid_scheme(channel@, i),
        },
{
    let n = channel.unicode_len();
    let mut i: usize = 0;
    let mut found: bool = false;
    while !found && n - i > 2
        invariant
            n == channel@.len(),
            i <= n,
            !found ==> forall|k: int| 0 <= k < i ==> !scheme_sep_at(channel@, k),
            found ==> first_scheme_sep(channel@, i as int),
        decreases n - i + (if found { 0int } else { 1int }),
    {
        if channel.get_char(i) == ':' && channel.get_char(i + 1) == '/' && channel.get_char(i + 2)
            == '/' {
            found = true;
        } else {
            proof {
                assert(!scheme_sep_at(channel@, i as int));
            }
            i += 1;
        }
    }
    if !found {
        proof {
            assert forall|k: int| #[trigger] first_scheme_sep(channel@, k) implies false by {
                assert(k + 3 <= n);
                assert(k < i);
                assert(!scheme_sep_at(channel@, k));
            }
        }
        return None;
    }
    proof {
        assert forall|k: int| #[trigger] first_scheme_sep(channel@, k) implies k == i as int by {
            if k < i as int {
                assert(!scheme_sep_at(channel@, k));
            }
            if k > i as int {
                assert(!scheme_sep_at(channel@, i as int));
            }
        }
    }
    if i == 0 || i > 11 {
        return None;
    }
    if !ascii_letter(channel.get_char(0)) {
        return None;
    }
    let mut k: usize = 1;
    while k < i
        invariant
            n == channel@.len(),
            1 <= k <= i,
            i + 2 < n || i + 2 == n,
            first_scheme_sep(channel@, i as int),
            forall|t: int| 1 <= t < k ==> is_ascii_alnum(#[trigger] channel@[t]),
        decreases i - k,
    {
        if !ascii_alnum(channel.get_char(k)) {
            proof {
                assert(!is_ascii_alnum(channel@[k as int]));
            }
            return None;
        }
        k += 1;
    }
    let p = channel.substring_char(0, i);
    proof {
        assert(first_scheme_sep(channel@, i as int) && valid_scheme(channel@, i as int) && p@
            == channel@.subrange(0, i as int));
    }
    Some(p)
}

/// A path marker begins at position `i`: a `~`, a slash, two dots, two
/// backslashes, or a drive letter followed by a colon and a backslash. (A
/// drive letter followed by a colon and a slash already carries a slash.)
pub open spec fn path_marker_at(s: Seq<char>, i: int) -> bool {
    &&& 0 <= i < s.len()
    &&& {
        ||| s[i] == '~'
        ||| s[i] == '/'
        ||| (i + 1 < s.len() && s[i] == '.' && s[i + 1] == '.')
        ||| (i + 1 < s.len() && s[i] == '\\' && s[i + 1] == '\\')
        ||| (i + 2 < s.len() && is_ascii_letter(s[i]) && s[i + 1] == ':' && s[i + 2] == '\\')
    }
}

/// Returns true if the specified string is considered to be a path: it
/// holds a path marker somewhere.
pub fn is_path(path: &str) -> (r: bool)
    ensures
        r == exists|i: int| #[trigger] path_marker_at(path@, i),
{
    let n = path.unicode_len();
    let mut i: usize = 0;
    while i < n
        invariant
            n == path@.len(),
            i <= n,
            forall|k: int| 0 <= k < i ==> !path_marker_at(path@, k),
        decreases n - i,
    {
        let c = path.get_char(i);
        if c == '~' || c == '/' {
            proof {
                assert(path_marker_at(path@, i as int));
            }
            return true;
        }
        if n - i > 1 {
            let d = path.get_char(i + 1);
            if (c == '.' && d == '.') || (c == '\\' && d == '\\') {
                proof {
                    assert(path_marker_at(path@, i as int));
                }
                return true;
            }
            if n - i > 2 && ascii_letter(c) && d == ':' && path.get_char(i + 2) == '\\' {
                proof {
                    assert(path_marker_at(path@, i as int));
                }
                return true;
            }
        }
        proof {
            assert(!path_marker_at(path@, i as int));
        }
        i += 1;
    }
    proof {
        if exists|k: int| #[trigger] path_marker_at(path@, k) {
            let k = choose|k: int| #[trigger] path_marker_at(path@, k);
        }
    }
    false
}

/// A platform a channel can serve packages for.
#[derive(Clone, Copy, PartialEq, Eq, Structural, Hash, Debug)]
pub enum Platform {
    NoArch,
    Linux32,
    Linux64,
    LinuxAarch64,
    Osx64,
    OsxArm64,
    Win32,
    Win64,
}

impl Platform {
    /// The platform's name as it appears in channel URLs.
    pub open spec fn name_spec(self) -> Seq<char> {
        match self {
            Platform::NoArch => "noarch"@,
            Platform::Linux32 => "linux-32"@,
            Platform::Linux64 => "linux-64"@,
            Platform::LinuxAarch64 => "linux-aarch64"@,
            Platform::Osx64 => "osx-64"@,
            Platform::OsxArm64 => "osx-arm64"@,
            Platform::Win32 => "win-32"@,
            Platform::Win64 => "win-64"@,
        }
    }

    /// The platform's name as it appears in channel URLs.
    pub fn as_str(&self) -> (r: &'static str)
        ensures
            r@ == self.name_spec(),
    {
        match self {
            Platform::NoArch => "noarch",
            Platform::Linux32 => "linux-32",
            Platform::Linux64 => "linux-64",
            Platform::LinuxAarch64 => "linux-aarch64",
            Platform::Osx64 => "osx-64",
            Platform::OsxArm64 => "osx-arm64",
            Platform::Win32 => "win-32",
            Platform::Win64 => "win-64",
        }
    }
}

/// Returns the default platforms: the platform this library targets as well
/// as the platform-agnostic one.
pub fn default_platforms() -> (r: Vec<Platform>)
    ensures
        r@ =~= seq![Platform::Linux64, Platform::NoArch],
{
    let mut r: Vec<Platform> = Vec::new();
    r.push(Platform::Linux64);
    r.push(Platform::NoArch);
    r
}

} // verus!
