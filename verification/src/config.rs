use vstd::prelude::*;

verus! {

/// How a configured directory or file path is turned into a real path.
#[derive(Clone, Copy, PartialEq, Eq, Debug, Structural)]
pub enum PathChoice {
    /// Use the default location.
    Fallback,
    /// The path starts with `~/`: join what follows those two characters to
    /// the home directory.
    HomeRelative,
    /// Use the path as written.
    AsGiven,
}

/// The path starts with the two characters `~/`.
pub open spec fn starts_with_home(s: Seq<char>) -> bool {
    s.len() >= 2 && s[0] == '~' && s[1] == '/'
}

/// Which location a configured save directory names, `home_known` saying
/// whether the home directory is known.
pub open spec fn save_dir_choice(save_dir: Option<String>, home_known: bool) -> PathChoice {
    match save_dir {
        None => PathChoice::Fallback,
        Some(d) => if d@.len() == 0 {
            PathChoice::Fallback
        } else if starts_with_home(d@) && home_known {
            PathChoice::HomeRelative
        } else {
            PathChoice::AsGiven
        },
    }
}

/// Which file a configured start-up file names, if any.
pub open spec fn load_file_choice(load_file: Option<String>, home_known: bool) -> Option<PathChoice> {
    match load_file {
        None => None,
        Some(f) => if f@.len() == 0 {
            None
        } else if starts_with_home(f@) && home_known {
            Some(PathChoice::HomeRelative)
        } else {
            Some(PathChoice::AsGiven)
        },
    }
}

/// A path counts as under the home directory exactly when its first two
/// characters are `~` and `/`: a path whose first character is anything else
/// (`./x`, `/x`, `x/y`), or that is `~` alone or `~x`, does not.
pub proof fn law_home_prefix(s: Seq<char>)
    ensures
        starts_with_home(s) ==> s.len() >= 2 && s[0] == '~' && s[1] == '/',
        (s.len() >= 2 && s[0] == '~' && s[1] == '/') ==> starts_with_home(s),
        (s.len() > 0 && s[0] != '~') ==> !starts_with_home(s),
        (s.len() >= 2 && s[1] != '/') ==> !starts_with_home(s),
{
}

/// How configured paths are resolved: an absent or empty save directory
/// falls back to the default, and an absent or empty start-up file names no
/// file; a path is taken under the home directory only when the home
/// directory is known and the path begins with `~/`; any other path (in
/// particular one whose first character is not `~`) is used as written.
pub proof fn law_path_choice(p: Option<String>, home_known: bool)
    ensures
        (p is None || p->0@.len() == 0) ==> save_dir_choice(p, home_known) == PathChoice::Fallback,
        (p is None || p->0@.len() == 0) ==> load_file_choice(p, home_known) is None,
        save_dir_choice(p, home_known) == PathChoice::HomeRelative ==> {
            &&& home_known
            &&& p is Some
            &&& p->0@.len() >= 2 && p->0@[0] == '~' && p->0@[1] == '/'
        },
        load_file_choice(p, home_known) == Some(PathChoice::HomeRelative) ==> {
            &&& home_known
            &&& p is Some
            &&& p->0@.len() >= 2 && p->0@[0] == '~' && p->0@[1] == '/'
        },
        (p is Some && p->0@.len() > 0 && (p->0@[0] != '~' || !home_known)) ==> {
            &&& save_dir_choice(p, home_known) == PathChoice::AsGiven
            &&& load_file_choice(p, home_known) == Some(PathChoice::AsGiven)
        },
        (p is Some && home_known && p->0@.len() >= 2 && p->0@[0] == '~' && p->0@[1] == '/') ==> {
            &&& save_dir_choice(p, home_known) == PathChoice::HomeRelative
            &&& load_file_choice(p, home_known) == Some(PathChoice::HomeRelative)
        },
{
}

/// Whether `s` starts with `~/`.
pub fn has_home_prefix(s: &str) -> (r: bool)
    ensures
        r == starts_with_home(s@),
        r ==> s@.len() >= 2 && s@[0] == '~' && s@[1] == '/',
        (s@.len() > 0 && s@[0] != '~') ==> !r,
{
    let mut it = s.chars();
    let a = it.next();
    let b = it.next();
    match (a, b) {
        (Some(c0), Some(c1)) => c0 == '~' && c1 == '/',
        _ => false,
    }
}

/// Where the save directory lies: the default location when none (or an
/// empty one) is configured; under the home directory when it starts with
/// `~/` and the home directory is known; otherwise as written.
pub fn resolve_save_dir(save_dir: &Option<String>, home_known: bool) -> (c: PathChoice)
    ensures
        c == save_dir_choice(*save_dir, home_known),
        c == PathChoice::HomeRelative ==> save_dir->0@[0] == '~',
        c == (match save_dir {
            None => PathChoice::Fallback,
            Some(d) => if d@.len() == 0 {
                PathChoice::Fallback
            } else if starts_with_home(d@) && home_known {
                PathChoice::HomeRelative
            } else {
                PathChoice::AsGiven
            },
        }),
{
    match save_dir {
        None => PathChoice::Fallback,
        Some(d) => {
            let s = d.as_str();
            if s.is_empty() {
                PathChoice::Fallback
            } else if has_home_prefix(s) && home_known {
                PathChoice::HomeRelative
            } else {
                PathChoice::AsGiven
            }
        },
    }
}

/// Which file to load at start-up: none when none (or an empty name) is
/// configured; under the home directory when it starts with `~/` and the
/// home directory is known; otherwise as written.
pub fn resolve_load_file(load_file: &Option<String>, home_known: bool) -> (c: Option<PathChoice>)
    ensures
        c == load_file_choice(*load_file, home_known),
        c == Some(PathChoice::HomeRelative) ==> load_file->0@[0] == '~',
        c == (match load_file {
            None => None,
            Some(f) => if f@.len() == 0 {
                None
            } else if starts_with_home(f@) && home_known {
                Some(PathChoice::HomeRelative)
            } else {
                Some(PathChoice::AsGiven)
            },
        }),
{
    match load_file {
        None => None,
        Some(f) => {
            let s = f.as_str();
            if s.is_empty() {
                None
            } else if has_home_prefix(s) && home_known {
                Some(PathChoice::HomeRelative)
            } else {
                Some(PathChoice::AsGiven)
            }
        },
    }
}

} // verus!
