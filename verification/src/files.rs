//! The decisions of `cat`, `wc`, `ls` and `mkdir` around their system calls:
//! which error number gives which message, how many line feeds a block
//! holds, and which directories `mkdir -p` creates.
use vstd::prelude::*;
use vstd::string::*;
use crate::text::{split, split_first};
use vstd::utf8::{decode_utf8, encode_utf8_decode_utf8, valid_utf8};

verus! {

/// `libc::EACCES`, which is 13 on the Linux and macOS targets this library
/// is built for; nothing else of the constant is claimed.
#[verifier::external_body]
fn errno_eacces() -> (e: i32)
    ensures
        e == 13,
{
    libc::EACCES
}

/// `libc::ENOENT`, which is 2 on the Linux and macOS targets this library is
/// built for; nothing else of the constant is claimed.
#[verifier::external_body]
fn errno_enoent() -> (e: i32)
    ensures
        e == 2,
{
    libc::ENOENT
}

/// `libc::EEXIST`, which is 17 on the Linux and macOS targets this library
/// is built for; nothing else of the constant is claimed.
#[verifier::external_body]
fn errno_eexist() -> (e: i32)
    ensures
        e == 17,
{
    libc::EEXIST
}

/// The error number for a permission refused.
pub open spec fn no_permission_errno() -> i32 {
    13
}

/// The error number for a missing file or directory.
pub open spec fn not_found_errno() -> i32 {
    2
}

/// The error number for a file that already exists.
pub open spec fn exists_errno() -> i32 {
    17
}

/// Why a file tool stopped.
#[derive(Debug, Clone, Copy, PartialEq, Eq, Structural)]
pub enum FileError {
    MissingFileName,
    NoPermission,
    FileNotFound,
    ReadFailed,
    DirOpenFailed,
    DirCreateFailed,
    DirRemoveFailed,
    InvalidUtf8,
}

impl FileError {
    /// The text reported for this error.
    pub open spec fn spec_message(&self) -> Seq<char> {
        match self {
            FileError::MissingFileName => "Please specify a file name"@,
            FileError::NoPermission => "No permission"@,
            FileError::FileNotFound => "File not found"@,
            FileError::ReadFailed => "Failed to read file"@,
            FileError::DirOpenFailed => "Failed to open dir"@,
            FileError::DirCreateFailed => "Failed to create dir"@,
            FileError::DirRemoveFailed => "Failed to remove dir"@,
            FileError::InvalidUtf8 => "stream did not contain valid UTF-8"@,
        }
    }

    /// The text reported for this error.
    pub fn message(&self) -> (m: &'static str)
        ensures
            m@ == self.spec_message(),
    {
        match self {
            FileError::MissingFileName => "Please specify a file name",
            FileError::NoPermission => "No permission",
            FileError::FileNotFound => "File not found",
            FileError::ReadFailed => "Failed to read file",
            FileError::DirOpenFailed => "Failed to open dir",
            FileError::DirCreateFailed => "Failed to create dir",
            FileError::DirRemoveFailed => "Failed to remove dir",
            FileError::InvalidUtf8 => "stream did not contain valid UTF-8",
        }
    }
}

/// The file that `cat` reads: its first argument after the program name.
pub fn file_name_arg(args: &Vec<String>) -> (r: Result<String, FileError>)
    ensures
        args@.len() < 2 ==> r == Err::<String, FileError>(FileError::MissingFileName),
        args@.len() >= 2 ==> (r matches Ok(name) && name@ == args@[1]@),
{
    if args.len() < 2 {
        return Err(FileError::MissingFileName);
    }
    Ok(args[1].clone())
}

/// What a failed `open` of the input means to `cat` and `wc`: a refused
/// permission or a missing file stop the tool; any other error number lets
/// it go on to the read, which then fails.
pub fn open_failure(errno: i32) -> (r: Option<FileError>)
    ensures
        r == (if errno == no_permission_errno() {
            Some(FileError::NoPermission)
        } else if errno == not_found_errno() {
            Some(FileError::FileNotFound)
        } else {
            None::<FileError>
        }),
{
    if errno == errno_eacces() {
        Some(FileError::NoPermission)
    } else if errno == errno_enoent() {
        Some(FileError::FileNotFound)
    } else {
        None
    }
}

/// What a `read` of the input returned means to `cat` and `wc`: a negative
/// count is a failed read, zero the end of the input, and anything else the
/// number of bytes read.
pub fn read_step(n: isize) -> (r: Result<Option<usize>, FileError>)
    ensures
        n < 0 ==> r == Err::<Option<usize>, FileError>(FileError::ReadFailed),
        n == 0 ==> r == Ok::<Option<usize>, FileError>(None),
        n > 0 ==> r == Ok::<Option<usize>, FileError>(Some(n as usize)),
{
    if n < 0 {
        Err(FileError::ReadFailed)
    } else if n == 0 {
        Ok(None)
    } else {
        Ok(Some(n as usize))
    }
}

/// What a failed `opendir` means to `ls`: a missing directory lists nothing
/// and succeeds; any other error stops it.
pub fn opendir_failure(errno: i32) -> (r: Result<(), FileError>)
    ensures
        r == (if errno == not_found_errno() {
            Ok::<(), FileError>(())
        } else {
            Err(FileError::DirOpenFailed)
        }),
{
    if errno == errno_enoent() {
        Ok(())
    } else {
        Err(FileError::DirOpenFailed)
    }
}

/// What a failed `mkdir` of one step of `mkdir -p` means: a directory that
/// already exists is passed over; any other error stops the tool.
pub fn mkdir_step_failure(errno: i32) -> (r: Result<(), FileError>)
    ensures
        r == (if errno == exists_errno() {
            Ok::<(), FileError>(())
        } else {
            Err(FileError::DirCreateFailed)
        }),
{
    if errno == errno_eexist() {
        Ok(())
    } else {
        Err(FileError::DirCreateFailed)
    }
}

/// The number of line feed bytes in `s`.
pub open spec fn count_newlines(s: Seq<u8>) -> nat
    decreases s.len(),
{
    if s.len() == 0 {
        0
    } else {
        (if s[0] == 10 { 1nat } else { 0nat }) + count_newlines(s.drop_first())
    }
}

/// Counts the line feed bytes of a block read by `wc`.
pub fn newline_count(buf: &[u8]) -> (n: usize)
    ensures
        n == count_newlines(buf@),
{
    let mut i: usize = buf.len();
    let mut n: usize = 0;
    assert(buf@.skip(i as int) =~= Seq::<u8>::empty());
    while i > 0
        invariant
            i <= buf@.len(),
            n == count_newlines(buf@.skip(i as int)),
            n <= buf@.len() - i,
        decreases i,
    {
        i = i - 1;
        assert(buf@.skip(i as int).drop_first() =~= buf@.skip(i + 1));
        if buf[i] == 10u8 {
            n = n + 1;
        }
    }
    assert(buf@.skip(0) =~= buf@);
    n
}

/// Line-feed counts of consecutive blocks add up to the count of the
/// blocks joined, so `wc` may count block by block.
pub proof fn law_newline_counts_add(a: Seq<u8>, b: Seq<u8>)
    ensures
        count_newlines(a + b) == count_newlines(a) + count_newlines(b),
    decreases a.len(),
{
    if a.len() > 0 {
        law_newline_counts_add(a.drop_first(), b);
        assert((a + b).drop_first() =~= a.drop_first() + b);
    } else {
        assert(a + b =~= b);
    }
}

/// `wc`'s running count after one more block: the line feeds counted so far
/// plus those of `chunk`, or `None` where that sum does not fit in a `usize`.
pub fn add_newlines(total: usize, chunk: &[u8]) -> (r: Option<usize>)
    ensures
        total + count_newlines(chunk@) <= usize::MAX ==> r == Some((total + count_newlines(chunk@)) as usize),
        total + count_newlines(chunk@) > usize::MAX ==> r is None,
{
    let n = newline_count(chunk);
    total.checked_add(n)
}

/// The text of the error that `std::str::from_utf8` reports for `bytes`
/// when they are not valid UTF-8 (its `Display`, which names the bad
/// sequence and where it starts).
pub uninterp spec fn utf8_error_text(bytes: Seq<u8>) -> Seq<char>;

/// `std::str::from_utf8`: the text that `b` encodes in UTF-8 where it is
/// valid UTF-8, else the text of the `Utf8Error` it reports.
#[verifier::external_body]
pub(crate) fn str_from_utf8(b: &[u8]) -> (r: Result<&str, String>)
    ensures
        r is Ok <==> valid_utf8(b@),
        r matches Ok(s) ==> s.spec_bytes() == b@,
        r matches Err(m) ==> m@ == utf8_error_text(b@),
{
    match std::str::from_utf8(b) {
        Ok(s) => Ok(s),
        Err(e) => Err(e.to_string()),
    }
}

/// What `cat_no_libc` does with a block it read: an empty block ends the
/// input; a block that is valid UTF-8 is printed as the text it encodes;
/// any other block stops the tool with `std::str::from_utf8`'s error.
pub fn cat_chunk(chunk: &[u8]) -> (r: Result<Option<String>, String>)
    ensures
        chunk@.len() == 0 ==> r == Ok::<Option<String>, String>(None),
        chunk@.len() > 0 && valid_utf8(chunk@) ==> (r matches Ok(Some(s)) && s@ == decode_utf8(chunk@)),
        chunk@.len() > 0 && !valid_utf8(chunk@) ==> (r matches Err(m) && m@ == utf8_error_text(chunk@)),
{
    if chunk.len() == 0 {
        return Ok(None);
    }
    match str_from_utf8(chunk) {
        Ok(text) => {
            proof {
                encode_utf8_decode_utf8(text@);
            }
            Ok(Some(text.to_owned()))
        },
        Err(m) => Err(m),
    }
}

/// Whether `head` reads and prints another line after `printed` lines,
/// when asked for `line_count` lines.
pub fn head_wants_line(printed: usize, line_count: usize) -> (r: bool)
    ensures
        r == (printed < line_count),
{
    printed < line_count
}

/// The path after `PathBuf::push` of a relative component holding no `/`:
/// a separator is put between them when the path is not empty and does not
/// already end in one.
pub open spec fn path_push(path: Seq<char>, component: Seq<char>) -> Seq<char> {
    if path.len() > 0 && path.last() != '/' {
        path.push('/') + component
    } else {
        path + component
    }
}

/// The paths that pushing `components` one at a time onto an empty path
/// passes through.
pub open spec fn pushed_paths(components: Seq<Seq<char>>) -> Seq<Seq<char>>
    decreases components.len(),
{
    if components.len() == 0 {
        seq![]
    } else {
        let before = pushed_paths(components.drop_last());
        let last = if before.len() == 0 { Seq::<char>::empty() } else { before.last() };
        before.push(path_push(last, components.last()))
    }
}

proof fn lemma_pushed_paths_len(components: Seq<Seq<char>>)
    ensures
        pushed_paths(components).len() == components.len(),
    decreases components.len(),
{
    if components.len() > 0 {
        lemma_pushed_paths_len(components.drop_last());
    }
}

proof fn lemma_pushed_paths_join(cs: Seq<Seq<char>>)
    requires
        cs.len() >= 1,
        forall|i: int| 0 <= i < cs.len() ==> (#[trigger] cs[i]).len() > 0 && !cs[i].contains('/'),
    ensures
        pushed_paths(cs).last() == crate::text::join(cs, '/'),
        pushed_paths(cs).last().len() > 0,
        pushed_paths(cs).last().last() == cs.last().last(),
    decreases cs.len(),
{
    lemma_pushed_paths_len(cs);
    if cs.len() == 1 {
        lemma_pushed_paths_len(cs.drop_last());
        assert(pushed_paths(cs.drop_last()).len() == 0);
    } else {
        let before = cs.drop_last();
        lemma_pushed_paths_join(before);
        lemma_pushed_paths_len(before);
        let last = cs.last();
        assert(before.last() == cs[cs.len() - 2]);
        assert(!before.last().contains('/'));
        assert(before.last().last() == before.last()[before.last().len() - 1]);
        assert(pushed_paths(before).last().last() != '/');
        assert(cs.last()[cs.last().len() - 1] == cs.last().last());
    }
}

/// `mkdir -p` ends by creating `dir_name` itself, when no piece between
/// slashes is empty (no leading, trailing or doubled `/`).
pub proof fn law_mkdir_paths_end_at_target(dir_name: Seq<char>)
    requires
        forall|i: int|
            0 <= i < split(dir_name, seq!['/']).len() ==> (#[trigger] split(dir_name, seq!['/'])[i]).len() > 0,
    ensures
        pushed_paths(split(dir_name, seq!['/'])).last() == dir_name,
{
    crate::text::lemma_split_char_join(dir_name, '/');
    crate::text::lemma_split_len(dir_name, seq!['/']);
    lemma_pushed_paths_join(split(dir_name, seq!['/']));
}

/// The directories that `mkdir -p` creates for `dir_name`, in order: the
/// path grows by one `/`-separated piece of `dir_name` at a time.
pub fn mkdir_paths(dir_name: &str) -> (r: Vec<String>)
    ensures
        r@.map_values(|p: String| p@) == pushed_paths(split(dir_name@, seq!['/'])),
{
    proof {
        reveal_strlit("/");
        assert("/"@ =~= seq!['/']);
    }
    let ghost all = split(dir_name@, seq!['/']);
    let mut paths: Vec<String> = Vec::new();
    let mut path = String::new();
    let mut rest: &str = dir_name;
    let ghost mut done: int = 0;
    loop
        invariant
            "/"@ == seq!['/'],
            all == split(dir_name@, seq!['/']),
            0 <= done < all.len(),
            forall|i: int| 0 <= i < split(rest@, seq!['/']).len() ==> all[done + i] == #[trigger] split(rest@, seq!['/'])[i],
            all.len() == done + split(rest@, seq!['/']).len(),
            paths@.map_values(|p: String| p@) == pushed_paths(all.take(done)),
            path@ == (if done == 0 { Seq::<char>::empty() } else { pushed_paths(all.take(done)).last() }),
        decreases split(rest@, seq!['/']).len(),
    {
        let (piece, next) = split_first(rest, "/");
        let ghost old_paths = paths@.map_values(|p: String| p@);
        let ghost old_path = path@;
        if path.unicode_len() > 0 && path.as_str().get_char(path.unicode_len() - 1) != '/' {
            path.append("/");
        }
        path.append(piece);
        paths.push(path.clone());
        proof {
            lemma_pushed_paths_len(all.take(done));
            assert(all.take(done + 1).drop_last() =~= all.take(done));
            assert(all.take(done + 1).last() == piece@);
            assert(path@ == path_push(old_path, piece@));
            assert(paths@.map_values(|p: String| p@) =~= old_paths.push(path@));
            done = done + 1;
        }
        match next {
            Some(next) => {
                rest = next;
            },
            None => {
                assert(all.take(done) =~= all);
                return paths;
            },
        }
    }
}

} // verus!
