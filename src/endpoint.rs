use vstd::prelude::*;
use vstd::string::*;

verus! {

/// The namespace that Windows named pipes live in: `\\.\pipe\`.
pub open spec fn pipe_prefix() -> Seq<char> {
    seq!['\\', '\\', '.', '\\', 'p', 'i', 'p', 'e', '\\']
}

/// The pipe name used when the given path names no file: `mpv-socket`.
pub open spec fn default_pipe_name() -> Seq<char> {
    seq!['m', 'p', 'v', '-', 's', 'o', 'c', 'k', 'e', 't']
}

/// Whether `s` starts with `p`.
pub open spec fn starts_with(s: Seq<char>, p: Seq<char>) -> bool {
    s.len() >= p.len() && s.subrange(0, p.len() as int) == p
}

/// The named-pipe path for the endpoint `path`: `path` itself when it is
/// already in the pipe namespace, else the namespace followed by the file
/// name of `path` (`file_name`), or by `mpv-socket` when it has none.
pub open spec fn pipe_path_of(path: Seq<char>, file_name: Option<Seq<char>>) -> Seq<char> {
    if starts_with(path, pipe_prefix()) {
        path
    } else {
        pipe_prefix() + match file_name {
            Some(n) => n,
            None => default_pipe_name(),
        }
    }
}

/// Whether `path` starts with the pipe namespace.
fn in_pipe_namespace(path: &str, prefix: &str) -> (r: bool)
    requires
        prefix@ == pipe_prefix(),
    ensures
        r == starts_with(path@, pipe_prefix()),
{
    let n = path.unicode_len();
    if n < 9 {
        return false;
    }
    let mut i: usize = 0;
    while i < 9
        invariant
            n == path@.len(),
            n >= 9,
            prefix@ == pipe_prefix(),
            i <= 9,
            forall|k: int| 0 <= k < i ==> path@[k] == pipe_prefix()[k],
        decreases 9 - i,
    {
        if path.get_char(i) != prefix.get_char(i) {
            proof {
                assert(path@.subrange(0, 9)[i as int] != pipe_prefix()[i as int]);
            }
            return false;
        }
        i = i + 1;
    }
    proof {
        assert(path@.subrange(0, 9) =~= pipe_prefix());
    }
    true
}

/// Resolves the named-pipe path for the endpoint `path`, given the file name
/// that `path` ends with, if any.
pub fn pipe_path(path: &str, file_name: Option<String>) -> (r: String)
    ensures
        r@ == pipe_path_of(path@, match file_name {
            Some(n) => Some(n@),
            None => None,
        }),
{
    let prefix = "\\\\.\\pipe\\";
    let default_name = "mpv-socket";
    proof {
        reveal_strlit("\\\\.\\pipe\\");
        reveal_strlit("mpv-socket");
        assert(prefix@ =~= pipe_prefix());
        assert(default_name@ =~= default_pipe_name());
    }
    if in_pipe_namespace(path, prefix) {
        return String::from_str(path);
    }
    let mut r = String::from_str(prefix);
    match file_name {
        Some(f) => r.append(f.as_str()),
        None => r.append(default_name),
    }
    r
}

} // verus!
