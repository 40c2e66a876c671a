//! Default locations: the cache directory, and the log and database files in
//! it. Creating directories is left to the program around the library; this
//! side decides which directory has to exist.

use vstd::prelude::*;
use std::borrow::ToOwned;

use crate::text::{compare_text, LexOrder};

verus! {

/// The directory of the application under the system cache directory.
pub const APP_DIR_NAME: &'static str = "rime-word-counter";

/// The log file the Lua script appends to.
pub const LOG_FILE_NAME: &'static str = "rime_word.log";

/// The database file.
pub const DB_FILE_NAME: &'static str = "rime_stats.db";

pub open spec fn app_dir_name() -> Seq<char> {
    seq!['r', 'i', 'm', 'e', '-', 'w', 'o', 'r', 'd', '-', 'c', 'o', 'u', 'n', 't', 'e', 'r']
}

pub open spec fn log_file_name() -> Seq<char> {
    seq!['r', 'i', 'm', 'e', '_', 'w', 'o', 'r', 'd', '.', 'l', 'o', 'g']
}

pub open spec fn db_file_name() -> Seq<char> {
    seq!['r', 'i', 'm', 'e', '_', 's', 't', 'a', 't', 's', '.', 'd', 'b']
}

/// Calls `dirs::cache_dir()` and hands back the directory as text. Which
/// directory it is depends on the platform and the environment; the
/// contract only says that a directory it gives is not empty (an absolute
/// `$XDG_CACHE_HOME`, or the home directory joined with `.cache` or
/// `Library/Caches`, or the Windows local application data folder).
#[verifier::external_body]
fn platform_cache_dir() -> (r: Option<String>)
    ensures
        r matches Some(s) ==> s@.len() > 0,
{
    match dirs::cache_dir() {
        Some(p) => Some(p.to_string_lossy().into_owned()),
        None => None,
    }
}

/// Reads `std::path::MAIN_SEPARATOR`, which the standard library documents
/// as `/` on Unix and `\` on Windows.
#[verifier::external_body]
fn main_separator() -> (c: char)
    ensures
        c == '/' || c == '\\',
{
    std::path::MAIN_SEPARATOR
}

/// A character that ends a directory part of a path.
pub open spec fn is_separator(c: char, sep: char) -> bool {
    c == '/' || c == sep
}

/// `base` joined with the relative name `name`, as `Path::join` does: a
/// separator goes between them unless `base` is empty or already ends with
/// one.
pub open spec fn join_path(base: Seq<char>, name: Seq<char>, sep: char) -> Seq<char> {
    if base.len() == 0 {
        name
    } else if is_separator(base.last(), sep) {
        base + name
    } else {
        base + seq![sep] + name
    }
}

fn join_str(base: &str, name: &str, sep: char) -> (r: String)
    ensures
        r@ == join_path(base@, name@, sep),
{
    let n = base.unicode_len();
    let mut out = base.to_owned();
    if n > 0 {
        let last = base.get_char(n - 1);
        if last != '/' && last != sep {
            out.push(sep);
        }
    }
    let mut k: usize = 0;
    let m = name.unicode_len();
    let ghost start = out@;
    while k < m
        invariant
            k <= m,
            m == name@.len(),
            out@ == start + name@.take(k as int),
        decreases m - k,
    {
        out.push(name.get_char(k));
        assert(name@.take(k + 1) =~= name@.take(k as int).push(name@[k as int]));
        k = k + 1;
    }
    assert(name@.take(m as int) =~= name@);
    assert(out@ =~= join_path(base@, name@, sep));
    out
}

/// The application's cache directory under the system cache directory
/// `base`, or under `.` where there is none.
pub fn cache_dir_under(base: Option<String>, sep: char) -> (r: String)
    ensures
        r@ == join_path(
            match base {
                Some(b) => b@,
                None => seq!['.'],
            },
            app_dir_name(),
            sep,
        ),
{
    let app = APP_DIR_NAME;
    proof {
        reveal_strlit("rime-word-counter");
    }
    assert(app@ =~= app_dir_name());
    match base {
        Some(b) => join_str(b.as_str(), app, sep),
        None => {
            let dot = ".";
            proof {
                reveal_strlit(".");
            }
            assert(dot@ =~= seq!['.']);
            join_str(dot, app, sep)
        },
    }
}

/// The log file in the cache directory `dir`.
pub fn log_path_in(dir: &str, sep: char) -> (r: String)
    ensures
        r@ == join_path(dir@, log_file_name(), sep),
{
    let f = LOG_FILE_NAME;
    proof {
        reveal_strlit("rime_word.log");
    }
    assert(f@ =~= log_file_name());
    join_str(dir, f, sep)
}

/// The database file in the cache directory `dir`.
pub fn db_path_in(dir: &str, sep: char) -> (r: String)
    ensures
        r@ == join_path(dir@, db_file_name(), sep),
{
    let f = DB_FILE_NAME;
    proof {
        reveal_strlit("rime_stats.db");
    }
    assert(f@ =~= db_file_name());
    join_str(dir, f, sep)
}

/// The cache directory for this platform: `~/.cache/rime-word-counter` on
/// Linux, `~/Library/Caches/rime-word-counter` on macOS,
/// `%LOCALAPPDATA%\rime-word-counter` on Windows.
pub fn get_cache_dir() -> (r: String)
    ensures
        exists|b: Seq<char>, sep: char|
            b.len() > 0 && (sep == '/' || sep == '\\') && r@ == #[trigger] join_path(
                b,
                app_dir_name(),
                sep,
            ),
{
    let sep = main_separator();
    let base = platform_cache_dir();
    let ghost b = match &base {
        Some(v) => v@,
        None => seq!['.'],
    };
    let r = cache_dir_under(base, sep);
    assert(r@ == join_path(b, app_dir_name(), sep));
    r
}

/// The default log path, in the cache directory.
pub fn default_log_path() -> (r: String)
    ensures
        exists|b: Seq<char>, sep: char|
            b.len() > 0 && (sep == '/' || sep == '\\') && r@ == join_path(
                #[trigger] join_path(b, app_dir_name(), sep),
                log_file_name(),
                sep,
            ),
{
    let sep = main_separator();
    let base = platform_cache_dir();
    let ghost b = match &base {
        Some(v) => v@,
        None => seq!['.'],
    };
    let dir = cache_dir_under(base, sep);
    let r = log_path_in(dir.as_str(), sep);
    assert(r@ == join_path(join_path(b, app_dir_name(), sep), log_file_name(), sep));
    r
}

/// The default database path, in the cache directory.
pub fn default_db_path() -> (r: String)
    ensures
        exists|b: Seq<char>, sep: char|
            b.len() > 0 && (sep == '/' || sep == '\\') && r@ == join_path(
                #[trigger] join_path(b, app_dir_name(), sep),
                db_file_name(),
                sep,
            ),
{
    let sep = main_separator();
    let base = platform_cache_dir();
    let ghost b = match &base {
        Some(v) => v@,
        None => seq!['.'],
    };
    let dir = cache_dir_under(base, sep);
    let r = db_path_in(dir.as_str(), sep);
    assert(r@ == join_path(join_path(b, app_dir_name(), sep), db_file_name(), sep));
    r
}

/// A path joined with a file name starts with the directory's path and
/// ends with the file name.
pub proof fn law_joined_path_extends_dir(dir: Seq<char>, name: Seq<char>, sep: char)
    ensures
        join_path(dir, name, sep).len() >= dir.len() + name.len(),
        join_path(dir, name, sep).subrange(0, dir.len() as int) == dir,
        join_path(dir, name, sep).subrange(
            join_path(dir, name, sep).len() - name.len(),
            join_path(dir, name, sep).len() as int,
        ) == name,
{
    let j = join_path(dir, name, sep);
    assert(j.subrange(0, dir.len() as int) =~= dir);
    assert(j.subrange(j.len() - name.len(), j.len() as int) =~= name);
}

// ---------------------------------------------------------------------
// The directory a file needs
// ---------------------------------------------------------------------

/// The parent directory of a path as `std::path::Path::parent` gives it, or
/// `None` where the path has none.
pub uninterp spec fn path_parent(p: Seq<char>) -> Option<Seq<char>>;

/// Calls `std::path::Path::new(p).parent()` and hands back the parent as
/// text. Which prefix `Path::parent` cuts off is the standard library's rule
/// and is only named here.
#[verifier::external_body]
fn parent_of(p: &str) -> (r: Option<String>)
    ensures
        r matches Some(q) ==> path_parent(p@) == Some(q@),
        r is None ==> path_parent(p@) is None,
{
    match std::path::Path::new(p).parent() {
        Some(q) => Some(q.to_string_lossy().into_owned()),
        None => None,
    }
}

/// `:memory:`, the name of a database that lives in memory only.
pub open spec fn memory_db_name() -> Seq<char> {
    seq![':', 'm', 'e', 'm', 'o', 'r', 'y', ':']
}

/// The directory that must exist before a file at `path` can be written:
/// none for an empty path, for `:memory:`, or for a bare file name.
pub open spec fn dir_to_create_spec(path: Seq<char>, parent: Option<Seq<char>>) -> Option<
    Seq<char>,
> {
    if path.len() == 0 || path == memory_db_name() {
        None
    } else {
        match parent {
            Some(q) => if q.len() > 0 {
                Some(q)
            } else {
                None
            },
            None => None,
        }
    }
}

/// Decides which directory a file at `file_path` needs, given the path's
/// parent.
pub fn dir_to_create_given(file_path: &str, parent: Option<String>) -> (r: Option<String>)
    ensures
        r matches Some(q) ==> dir_to_create_spec(file_path@, match parent {
            Some(p) => Some(p@),
            None => None,
        }) == Some(q@),
        r is None ==> dir_to_create_spec(file_path@, match parent {
            Some(p) => Some(p@),
            None => None,
        }) is None,
{
    let mem = ":memory:";
    proof {
        reveal_strlit(":memory:");
    }
    assert(mem@ =~= memory_db_name());
    if file_path.unicode_len() == 0 || compare_text(file_path, mem) == LexOrder::Same {
        return None;
    }
    match parent {
        Some(q) => if q.unicode_len() > 0 {
            Some(q)
        } else {
            None
        },
        None => None,
    }
}

/// The directory that must exist before a file at `file_path` can be
/// written, if any.
pub fn dir_to_create(file_path: &str) -> (r: Option<String>)
    ensures
        r matches Some(q) ==> dir_to_create_spec(file_path@, path_parent(file_path@)) == Some(
            q@,
        ),
        r is None ==> dir_to_create_spec(file_path@, path_parent(file_path@)) is None,
{
    let parent = parent_of(file_path);
    dir_to_create_given(file_path, parent)
}

} // verus!
