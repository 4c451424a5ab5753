//! Path utilities: canonicalisation, equivalence, command lookup.
//!
//! Everything that touches the real file system is split off: the
//! functions here work over plain values — a `FsView` listing what a
//! caller probed on disk, stat identities, a prepared base directory —
//! and are verified against them.  The probing itself (access and stat
//! calls, directory creation, the file-system type query) is performed by
//! the embedding program, which hands the results in.

use vstd::prelude::*;

verus! {

/// Marker character standing for an unexpanded tilde at the start of a
/// path; paths beginning with it are home-relative, not working-directory
/// relative.
pub const HOME_DIRECTORY_MARKER: char = '\u{F102}';

/// Error code for a missing file.
pub const ERR_NOENT: i32 = 2;

/// Error code for a file that may not be executed.
pub const ERR_ACCES: i32 = 13;

/// Error code for a path component that is not a directory.
pub const ERR_NOTDIR: i32 = 20;

/// Whether a directory is on a network file system.
#[allow(non_camel_case_types)]
#[derive(Clone, Copy, Debug, PartialEq, Eq, Structural)]
pub enum DirRemoteness {
    /// directory status is unknown
    unknown,
    /// directory is known local
    local,
    /// directory is known remote
    remote,
}

/// True when a file-system magic number names a network or distributed
/// file system.
pub open spec fn remote_fs_magic(m: u64) -> bool {
    ||| m == 0x5346414F
    ||| m == 0x6B414653
    ||| m == 0x73757245
    ||| m == 0x47504653
    ||| m == 0x564C
    ||| m == 0x6969
    ||| m == 0x7461636F
    ||| m == 0x61636673
    ||| m == 0x517B
    ||| m == 0xFE534D42
    ||| m == 0xFF534D42
    ||| m == 0x01021997
    ||| m == 0x19830326
    ||| m == 0x013111A7
    ||| m == 0x013111A8
    ||| m == 0x65735546
    ||| m == 0xA501FCF5
}

/// Classify a file-system magic number, as reported by the embedding
/// program's statfs call: known network file systems are remote, all
/// others are of unknown remoteness.
pub fn path_remoteness_of_magic(m: u64) -> (r: DirRemoteness)
    ensures
        r == (if remote_fs_magic(m) {
            DirRemoteness::remote
        } else {
            DirRemoteness::unknown
        }),
{
    if m == 0x5346414F || m == 0x6B414653 || m == 0x73757245 || m == 0x47504653 || m == 0x564C || m
        == 0x6969 || m == 0x7461636F || m == 0x61636673 || m == 0x517B || m == 0xFE534D42 || m
        == 0xFF534D42 || m == 0x01021997 || m == 0x19830326 || m == 0x013111A7 || m == 0x013111A8
        || m == 0x65735546 || m == 0xA501FCF5 {
        DirRemoteness::remote
    } else {
        DirRemoteness::unknown
    }
}

/// A user base directory as prepared by the embedding program: the
/// resolved path, its remoteness, the error from creating it (0 on
/// success), and whether an XDG variable chose it.
pub struct BaseDirectory {
    /// The path where creation was attempted.
    pub path: Vec<char>,
    /// Whether the directory is on a network volume.
    pub remoteness: DirRemoteness,
    /// The error from creating the directory, or 0 on success.
    pub err: i32,
    /// Whether an XDG variable was used in resolving the directory.
    pub used_xdg: bool,
}

impl BaseDirectory {
    /// True when the directory was created or already existed.
    pub fn success(&self) -> (r: bool)
        ensures
            r == (self.err == 0),
    {
        self.err == 0
    }
}

/// The user configuration directory, if it could be prepared.
pub fn path_get_config(dir: &BaseDirectory) -> (r: Option<Vec<char>>)
    ensures
        dir.err == 0 ==> (r matches Some(p) && p@ == dir.path@),
        dir.err != 0 ==> r is None,
{
    if dir.err == 0 {
        Some(clone_chars(&dir.path))
    } else {
        None
    }
}

/// The user data directory, if it could be prepared.
pub fn path_get_data(dir: &BaseDirectory) -> (r: Option<Vec<char>>)
    ensures
        dir.err == 0 ==> (r matches Some(p) && p@ == dir.path@),
        dir.err != 0 ==> r is None,
{
    if dir.err == 0 {
        Some(clone_chars(&dir.path))
    } else {
        None
    }
}

/// The user cache directory, if it could be prepared.
pub fn path_get_cache(dir: &BaseDirectory) -> (r: Option<Vec<char>>)
    ensures
        dir.err == 0 ==> (r matches Some(p) && p@ == dir.path@),
        dir.err != 0 ==> r is None,
{
    if dir.err == 0 {
        Some(clone_chars(&dir.path))
    } else {
        None
    }
}

/// Remoteness of the data directory.
pub fn path_get_data_remoteness(dir: &BaseDirectory) -> (r: DirRemoteness)
    ensures
        r == dir.remoteness,
{
    dir.remoteness
}

/// Remoteness of the configuration directory.
pub fn path_get_config_remoteness(dir: &BaseDirectory) -> (r: DirRemoteness)
    ensures
        r == dir.remoteness,
{
    dir.remoteness
}

/// Copy a text value.
fn clone_chars(v: &Vec<char>) -> (r: Vec<char>)
    ensures
        r@ == v@,
{
    let mut r: Vec<char> = Vec::new();
    let mut i: usize = 0;
    while i < v.len()
        invariant
            i <= v.len(),
            r@ == v@.subrange(0, i as int),
        decreases v.len() - i,
    {
        let c = v[i];
        r.push(c);
        proof {
            assert(v@.subrange(0, i + 1 as int) =~= v@.subrange(0, i as int).push(v@[i as int]));
        }
        i = i + 1;
    }
    proof {
        assert(v@.subrange(0, v@.len() as int) =~= v@);
    }
    r
}

/// True when two texts are equal.
fn chars_eq(a: &Vec<char>, b: &Vec<char>) -> (r: bool)
    ensures
        r == (a@ == b@),
{
    if a.len() != b.len() {
        return false;
    }
    let mut i: usize = 0;
    while i < a.len()
        invariant
            i <= a.len(),
            a@.len() == b@.len(),
            forall|j: int| 0 <= j < i ==> a@[j] == b@[j],
        decreases a.len() - i,
    {
        if a[i] != b[i] {
            return false;
        }
        i = i + 1;
    }
    proof {
        assert(a@ =~= b@);
    }
    true
}

/// True when `p` holds the character `c` somewhere.
fn contains_char(p: &Vec<char>, c: char) -> (r: bool)
    ensures
        r == p@.contains(c),
{
    let mut i: usize = 0;
    while i < p.len()
        invariant
            i <= p.len(),
            forall|j: int| 0 <= j < i ==> p@[j] != c,
        decreases p.len() - i,
    {
        if p[i] == c {
            return true;
        }
        i = i + 1;
    }
    false
}

/// Joining a path and a component: a single slash is placed between them
/// when neither supplies one, and a doubled slash is reduced to one.
pub open spec fn append_comp(p: Seq<char>, c: Seq<char>) -> Seq<char> {
    if p.len() == 0 || c.len() == 0 {
        p + c
    } else if p.last() == '/' && c[0] == '/' {
        p.drop_last() + c
    } else if p.last() != '/' && c[0] != '/' {
        p + seq!['/'] + c
    } else {
        p + c
    }
}

/// Append one path component to `path`, with a slash when needed.
pub fn append_path_component(path: &mut Vec<char>, component: &Vec<char>)
    ensures
        final(path)@ == append_comp(old(path)@, component@),
{
    if path.len() == 0 || component.len() == 0 {
        push_all(path, component);
        proof {
            assert(final(path)@ =~= append_comp(old(path)@, component@));
        }
        return ;
    }
    let path_slash = path[path.len() - 1] == '/';
    let comp_slash = component[0] == '/';
    if !path_slash && !comp_slash {
        path.push('/');
    } else if path_slash && comp_slash {
        path.pop();
    }
    push_all(path, component);
    proof {
        assert(final(path)@ =~= append_comp(old(path)@, component@));
    }
}

/// Append every character of `src` to `dst`.
fn push_all(dst: &mut Vec<char>, src: &Vec<char>)
    ensures
        final(dst)@ == old(dst)@ + src@,
{
    let mut i: usize = 0;
    while i < src.len()
        invariant
            i <= src.len(),
            dst@ == old(dst)@ + src@.subrange(0, i as int),
        decreases src.len() - i,
    {
        let c = src[i];
        dst.push(c);
        proof {
            assert(old(dst)@ + src@.subrange(0, i + 1 as int) =~= (old(dst)@ + src@.subrange(
                0,
                i as int,
            )).push(src@[i as int]));
        }
        i = i + 1;
    }
    proof {
        assert(old(dst)@ + src@.subrange(0, src@.len() as int) =~= old(dst)@ + src@);
    }
}

/// `s` with every run of slashes reduced to a single slash; `prev_slash`
/// tells whether the character written just before `s` was a slash.
pub open spec fn collapse_slashes(s: Seq<char>, prev_slash: bool) -> Seq<char>
    decreases s.len(),
{
    if s.len() == 0 {
        s
    } else if prev_slash && s[0] == '/' {
        collapse_slashes(s.drop_first(), true)
    } else {
        seq![s[0]] + collapse_slashes(s.drop_first(), s[0] == '/')
    }
}

/// What canonicalisation leaves: runs of slashes become one slash and one
/// trailing slash is dropped; a path that collapses to at most one
/// character is left exactly as it was.
pub open spec fn canonical_path(s: Seq<char>) -> Seq<char> {
    let c = collapse_slashes(s, false);
    if c.len() > 1 {
        if c.last() == '/' {
            c.drop_last()
        } else {
            c
        }
    } else {
        s
    }
}

/// The collapsed form of the first `l` characters of `p`.
fn collapsed_prefix(p: &Vec<char>, l: usize) -> (c: Vec<char>)
    requires
        l <= p.len(),
    ensures
        c@ == collapse_slashes(p@.take(l as int), false),
{
    let mut c: Vec<char> = Vec::new();
    let mut i: usize = 0;
    let mut prev: bool = false;
    while i < l
        invariant
            i <= l <= p.len(),
            collapse_slashes(p@.take(l as int), false) == c@ + collapse_slashes(
                p@.subrange(i as int, l as int),
                prev,
            ),
        decreases l - i,
    {
        let ghost rest = p@.subrange(i as int, l as int);
        let x = p[i];
        proof {
            assert(rest[0] == p@[i as int]);
            assert(rest.drop_first() =~= p@.subrange(i + 1 as int, l as int));
        }
        if prev && x == '/' {
        } else {
            let ghost c_old = c@;
            c.push(x);
            proof {
                assert(c_old + (seq![x] + collapse_slashes(
                    p@.subrange(i + 1 as int, l as int),
                    x == '/',
                )) =~= c@ + collapse_slashes(p@.subrange(i + 1 as int, l as int), x == '/'));
            }
            prev = x == '/';
        }
        i = i + 1;
    }
    proof {
        assert(p@.subrange(l as int, l as int) =~= Seq::<char>::empty());
        assert(c@ + collapse_slashes(Seq::<char>::empty(), prev) =~= c@);
    }
    c
}

/// Remove doubled slashes and one trailing slash from `path`, in place:
/// `foo//bar/` becomes `foo/bar`.  A path that collapses to a single
/// character (a lone slash, or a run of slashes only) is left unchanged.
pub fn path_make_canonical(path: &mut Vec<char>)
    ensures
        final(path)@ == canonical_path(old(path)@),
{
    let n = path.len();
    let mut c = collapsed_prefix(path, n);
    proof {
        assert(path@.take(n as int) =~= path@);
    }
    if c.len() > 1 {
        if c[c.len() - 1] == '/' {
            c.pop();
            proof {
                assert(c@ =~= collapse_slashes(old(path)@, false).drop_last());
            }
        }
        *path = c;
    }
}

/// The length of `p` once trailing slashes are ignored; never below one
/// for a non-empty path.
pub open spec fn trimmed_len(p: Seq<char>) -> int
    decreases p.len(),
{
    if p.len() > 1 && p.last() == '/' {
        trimmed_len(p.drop_last())
    } else {
        p.len() as int
    }
}

/// The walk that compares two paths runs past the trimmed end of a path
/// made of two or more slashes and nothing else; such a path compares
/// unequal to everything but its exact twin.
pub open spec fn slash_overrun(p: Seq<char>) -> bool {
    p.len() > 1 && trimmed_len(p) == 1 && p[0] == '/' && p[1] == '/'
}

/// Path equivalence: equality up to runs of slashes and trailing slashes
/// (with the overrun exception above).
pub open spec fn path_equiv(p1: Seq<char>, p2: Seq<char>) -> bool {
    ||| p1 == p2
    ||| (!slash_overrun(p1) && !slash_overrun(p2) && collapse_slashes(
        p1.take(trimmed_len(p1)),
        false,
    ) == collapse_slashes(p2.take(trimmed_len(p2)), false))
}

/// The index where trailing slashes of `p` begin.
fn trim_end(p: &Vec<char>) -> (l: usize)
    ensures
        l == trimmed_len(p@),
        l <= p.len(),
{
    let mut l = p.len();
    proof {
        assert(p@.take(l as int) =~= p@);
    }
    while l > 1 && p[l - 1] == '/'
        invariant
            l <= p.len(),
            trimmed_len(p@) == trimmed_len(p@.take(l as int)),
        decreases l,
    {
        proof {
            assert(p@.take(l as int).drop_last() =~= p@.take(l - 1));
            assert(p@.take(l as int).last() == p@[l - 1]);
        }
        l = l - 1;
    }
    proof {
        if l > 1 {
            assert(p@.take(l as int).last() == p@[l - 1]);
        }
        assert(trimmed_len(p@.take(l as int)) == l);
    }
    l
}

/// Check whether two paths are equivalent: runs of slashes and trailing
/// slashes are ignored.
pub fn paths_are_equivalent(p1: &Vec<char>, p2: &Vec<char>) -> (r: bool)
    ensures
        r == path_equiv(p1@, p2@),
{
    if chars_eq(p1, p2) {
        return true;
    }
    let l1 = trim_end(p1);
    let l2 = trim_end(p2);
    let over1 = p1.len() > 1 && l1 == 1 && p1[0] == '/' && p1[1] == '/';
    let over2 = p2.len() > 1 && l2 == 1 && p2[0] == '/' && p2[1] == '/';
    if over1 || over2 {
        return false;
    }
    let c1 = collapsed_prefix(p1, l1);
    let c2 = collapsed_prefix(p2, l2);
    chars_eq(&c1, &c2)
}

/// `s` with its leading slashes removed.
pub open spec fn drop_lead_slashes(s: Seq<char>) -> Seq<char>
    decreases s.len(),
{
    if s.len() > 0 && s[0] == '/' {
        drop_lead_slashes(s.drop_first())
    } else {
        s
    }
}

/// What prepending the working directory yields: an empty path, an empty
/// working directory, an absolute path and a home-relative path are
/// returned unchanged; otherwise one leading `./` and any leading slashes
/// are removed and the rest is joined to the working directory.
pub open spec fn apply_wd(path: Seq<char>, wd: Seq<char>) -> Seq<char> {
    if path.len() == 0 || wd.len() == 0 {
        path
    } else if path[0] == '/' || path[0] == HOME_DIRECTORY_MARKER {
        path
    } else {
        let p1 = if path.len() >= 2 && path[0] == '.' && path[1] == '/' {
            path.skip(2)
        } else {
            path
        };
        append_comp(wd, drop_lead_slashes(p1))
    }
}

/// Prepend the working directory to a path that looks relative to it.
/// This operates on unescaped paths only, so a tilde is literal unless it
/// was already turned into the home marker.
pub fn path_apply_working_directory(path: &Vec<char>, working_directory: &Vec<char>) -> (r: Vec<
    char,
>)
    ensures
        r@ == apply_wd(path@, working_directory@),
{
    if path.len() == 0 || working_directory.len() == 0 {
        return clone_chars(path);
    }
    if path[0] == '/' || path[0] == HOME_DIRECTORY_MARKER {
        return clone_chars(path);
    }
    let mut start: usize = 0;
    if path.len() >= 2 && path[0] == '.' && path[1] == '/' {
        start = 2;
    }
    let ghost p1 = if path@.len() >= 2 && path@[0] == '.' && path@[1] == '/' {
        path@.skip(2)
    } else {
        path@
    };
    while start < path.len() && path[start] == '/'
        invariant
            start <= path.len(),
            drop_lead_slashes(p1) == drop_lead_slashes(path@.skip(start as int)),
        decreases path.len() - start,
    {
        proof {
            assert(path@.skip(start as int).drop_first() =~= path@.skip(start + 1 as int));
        }
        start = start + 1;
    }
    proof {
        assert(drop_lead_slashes(path@.skip(start as int)) == path@.skip(start as int));
    }
    let mut out = clone_chars(working_directory);
    let comp = tail_chars(path, start);
    append_path_component(&mut out, &comp);
    out
}

/// The characters of `p` from `from` on.
fn tail_chars(p: &Vec<char>, from: usize) -> (r: Vec<char>)
    requires
        from <= p.len(),
    ensures
        r@ == p@.skip(from as int),
{
    let mut r: Vec<char> = Vec::new();
    let mut i: usize = from;
    while i < p.len()
        invariant
            from <= i <= p.len(),
            r@ == p@.subrange(from as int, i as int),
        decreases p.len() - i,
    {
        let c = p[i];
        r.push(c);
        proof {
            assert(p@.subrange(from as int, i + 1 as int) =~= p@.subrange(from as int, i as int)
                .push(p@[i as int]));
        }
        i = i + 1;
    }
    proof {
        assert(p@.subrange(from as int, p@.len() as int) =~= p@.skip(from as int));
    }
    r
}

/// The identity of a file on disk, as reported by a stat call.
#[derive(Clone, Copy, Debug, PartialEq, Eq, Structural)]
pub struct FileId {
    /// Inode number.
    pub ino: u64,
    /// Device number.
    pub dev: u64,
}

/// Whether two paths refer to the same file: equivalent as text, or both
/// stat to the same inode on the same device.  The identities are the
/// stat results for the two paths, when stat succeeded.
pub fn paths_are_same_file(
    path1: &Vec<char>,
    path2: &Vec<char>,
    id1: Option<FileId>,
    id2: Option<FileId>,
) -> (r: bool)
    ensures
        r == (path_equiv(path1@, path2@) || (id1 matches Some(a) && id2 matches Some(b) && a.ino
            == b.ino && a.dev == b.dev)),
{
    if paths_are_equivalent(path1, path2) {
        return true;
    }
    match (id1, id2) {
        (Some(a), Some(b)) => a.ino == b.ino && a.dev == b.dev,
        _ => false,
    }
}

/// What one probe of the file system learned about a path.
#[derive(Clone, Copy, Debug, PartialEq, Eq, Structural)]
pub struct FileMeta {
    /// The path names a regular file.
    pub is_file: bool,
    /// The path names a directory.
    pub is_dir: bool,
    /// The path may be executed, or searched when it is a directory.
    pub executable: bool,
}

/// One probed path with what was learned about it.
pub struct FsEntry {
    /// The probed path.
    pub path: Vec<char>,
    /// What the probe learned.
    pub meta: FileMeta,
}

/// A view of the file system: the paths the embedding program probed,
/// with their outcomes.  Paths not listed count as missing.
pub struct FsView {
    /// The probed paths, first match wins.
    pub entries: Vec<FsEntry>,
}

/// The first entry for `p`, if one was probed.
pub open spec fn fs_lookup_from(entries: Seq<FsEntry>, p: Seq<char>, i: int) -> Option<FileMeta>
    decreases entries.len() - i,
    when 0 <= i
{
    if i >= entries.len() {
        None
    } else if entries[i].path@ == p {
        Some(entries[i].meta)
    } else {
        fs_lookup_from(entries, p, i + 1)
    }
}

/// What the view records for `p`.
pub open spec fn fs_lookup(fs: FsView, p: Seq<char>) -> Option<FileMeta> {
    fs_lookup_from(fs.entries@, p, 0)
}

impl FsView {
    /// Look a path up in the view.
    pub fn lookup(&self, p: &Vec<char>) -> (r: Option<FileMeta>)
        ensures
            r == fs_lookup(*self, p@),
    {
        let mut i: usize = 0;
        while i < self.entries.len()
            invariant
                i <= self.entries@.len(),
                fs_lookup_from(self.entries@, p@, 0) == fs_lookup_from(
                    self.entries@,
                    p@,
                    i as int,
                ),
            decreases self.entries.len() - i,
        {
            if chars_eq(&self.entries[i].path, p) {
                return Some(self.entries[i].meta);
            }
            i = i + 1;
        }
        None
    }
}

/// The error from testing whether `p` can be executed: missing paths give
/// the missing-file error; paths that are not executable regular files
/// give the permission error.
pub open spec fn test_path_err(fs: FsView, p: Seq<char>) -> Option<i32> {
    match fs_lookup(fs, p) {
        None => Some(ERR_NOENT),
        Some(m) => if !m.executable {
            Some(ERR_ACCES)
        } else if !m.is_file {
            Some(ERR_ACCES)
        } else {
            None
        },
    }
}

/// Test whether `p` can be executed, against the view.
fn test_path(fs: &FsView, p: &Vec<char>) -> (r: Option<i32>)
    ensures
        r == test_path_err(*fs, p@),
{
    match fs.lookup(p) {
        None => Some(ERR_NOENT),
        Some(m) => {
            if !m.executable {
                Some(ERR_ACCES)
            } else if !m.is_file {
                Some(ERR_ACCES)
            } else {
                None
            }
        },
    }
}

/// True when the directory entry `d` was probed searchable; used to keep
/// only interesting lookup errors.  The candidate's directory is the
/// search-path entry itself.
pub open spec fn dir_searchable(fs: FsView, d: Seq<char>) -> bool {
    match fs_lookup(fs, d) {
        Some(m) => m.executable,
        None => false,
    }
}

/// The outcome of a command search: the best path found, and the error
/// that stopped it from being usable, if any.  With no error the path can
/// be executed; with the missing-file error no candidate existed at all.
pub struct GetPathResult {
    /// The error for the best candidate, or nothing on success.
    pub err: Option<i32>,
    /// The best candidate path; empty when none existed.
    pub path: Vec<char>,
}

/// The search over the remaining entries, carrying the best error seen.
pub open spec fn search_path_from(
    cmd: Seq<char>,
    entries: Seq<Seq<char>>,
    fs: FsView,
    i: int,
    best_err: Option<i32>,
    best_path: Seq<char>,
) -> (Option<i32>, Seq<char>)
    decreases entries.len() - i,
    when 0 <= i
{
    if i >= entries.len() {
        (best_err, best_path)
    } else if entries[i].len() == 0 {
        search_path_from(cmd, entries, fs, i + 1, best_err, best_path)
    } else {
        let prop = append_comp(entries[i], cmd);
        match test_path_err(fs, prop) {
            None => (None, prop),
            Some(e) => {
                if e != ERR_NOENT && best_err == Some(ERR_NOENT) && dir_searchable(
                    fs,
                    entries[i],
                ) {
                    search_path_from(cmd, entries, fs, i + 1, Some(e), prop)
                } else {
                    search_path_from(cmd, entries, fs, i + 1, best_err, best_path)
                }
            },
        }
    }
}

/// The full command search: an empty command or one holding a NUL byte
/// never resolves; one holding a slash is tested as given; anything else
/// is joined to each non-empty search-path entry in turn, returning the
/// first executable candidate, else the first interesting error in a
/// searchable directory, else the missing-file error.
pub open spec fn search_path(cmd: Seq<char>, entries: Seq<Seq<char>>, fs: FsView) -> (
    Option<i32>,
    Seq<char>,
) {
    if cmd.len() == 0 || cmd.contains('\0') {
        (Some(ERR_NOENT), Seq::<char>::empty())
    } else if cmd.contains('/') {
        (test_path_err(fs, cmd), cmd)
    } else {
        search_path_from(cmd, entries, fs, 0, Some(ERR_NOENT), Seq::<char>::empty())
    }
}

/// Search the given path list for the command, reporting the best
/// candidate and its error.
pub fn path_try_get_path(cmd: &Vec<char>, paths: &Vec<Vec<char>>, fs: &FsView) -> (r: GetPathResult)
    ensures
        ({
            let s = search_path(cmd@, crate::split::field_views(paths@), *fs);
            r.err == s.0 && r.path@ == s.1
        }),
{
    let ghost entries = crate::split::field_views(paths@);
    if cmd.len() == 0 || contains_char(cmd, '\0') {
        return GetPathResult { err: Some(ERR_NOENT), path: Vec::new() };
    }
    if contains_char(cmd, '/') {
        return GetPathResult { err: test_path(fs, cmd), path: clone_chars(cmd) };
    }
    let mut best_err: Option<i32> = Some(ERR_NOENT);
    let mut best_path: Vec<char> = Vec::new();
    let mut i: usize = 0;
    while i < paths.len()
        invariant
            i <= paths@.len(),
            entries == crate::split::field_views(paths@),
            cmd@.len() > 0,
            !cmd@.contains('\0'),
            !cmd@.contains('/'),
            search_path_from(cmd@, entries, *fs, 0, Some(ERR_NOENT), Seq::<char>::empty())
                == search_path_from(cmd@, entries, *fs, i as int, best_err, best_path@),
        decreases paths.len() - i,
    {
        proof {
            assert(entries[i as int] == paths@[i as int]@);
        }
        if paths[i].len() == 0 {
            i = i + 1;
            continue ;
        }
        let mut proposed = clone_chars(&paths[i]);
        append_path_component(&mut proposed, cmd);
        proof {
            assert(proposed@ == append_comp(entries[i as int], cmd@));
        }
        match test_path(fs, &proposed) {
            None => {
                return GetPathResult { err: None, path: proposed };
            },
            Some(e) => {
                let keep = e != ERR_NOENT && matches!(best_err, Some(ERR_NOENT)) && (match fs
                    .lookup(&paths[i]) {
                    Some(m) => m.executable,
                    None => false,
                });
                if keep {
                    best_err = Some(e);
                    best_path = proposed;
                }
            },
        }
        i = i + 1;
    }
    GetPathResult { err: best_err, path: best_path }
}

/// The path of an executable named `cmd` in the search path, if any.
pub fn path_get_path(cmd: &Vec<char>, paths: &Vec<Vec<char>>, fs: &FsView) -> (r: Option<Vec<char>>)
    ensures
        ({
            let s = search_path(cmd@, crate::split::field_views(paths@), *fs);
            match r {
                Some(p) => s.0 is None && p@ == s.1,
                None => s.0 is Some,
            }
        }),
{
    let result = path_try_get_path(cmd, paths, fs);
    if result.err.is_some() {
        None
    } else {
        Some(result.path)
    }
}

/// The candidates that a command matches: every executable candidate, in
/// search-path order.
pub open spec fn all_paths_from(cmd: Seq<char>, entries: Seq<Seq<char>>, fs: FsView, i: int) -> Seq<
    Seq<char>,
>
    decreases entries.len() - i,
    when 0 <= i
{
    if i >= entries.len() {
        Seq::<Seq<char>>::empty()
    } else if entries[i].len() == 0 {
        all_paths_from(cmd, entries, fs, i + 1)
    } else {
        let prop = append_comp(entries[i], cmd);
        if test_path_err(fs, prop) is None {
            seq![prop] + all_paths_from(cmd, entries, fs, i + 1)
        } else {
            all_paths_from(cmd, entries, fs, i + 1)
        }
    }
}

/// Every path that matches the command: the command itself when it holds
/// a slash and is executable; otherwise each executable join with a
/// non-empty search-path entry.
pub open spec fn all_matching_paths(cmd: Seq<char>, entries: Seq<Seq<char>>, fs: FsView) -> Seq<
    Seq<char>,
> {
    if cmd.contains('/') && test_path_err(fs, cmd) is None {
        seq![cmd]
    } else {
        all_paths_from(cmd, entries, fs, 0)
    }
}

/// Return all the paths that match the given command.
pub fn path_get_paths(cmd: &Vec<char>, paths: &Vec<Vec<char>>, fs: &FsView) -> (r: Vec<Vec<char>>)
    ensures
        crate::split::field_views(r@) == all_matching_paths(
            cmd@,
            crate::split::field_views(paths@),
            *fs,
        ),
{
    let ghost entries = crate::split::field_views(paths@);
    let mut out: Vec<Vec<char>> = Vec::new();
    if contains_char(cmd, '/') {
        if test_path(fs, cmd).is_none() {
            out.push(clone_chars(cmd));
            proof {
                assert(crate::split::field_views(out@) =~= seq![cmd@]);
            }
            return out;
        }
    }
    let mut i: usize = 0;
    while i < paths.len()
        invariant
            i <= paths@.len(),
            entries == crate::split::field_views(paths@),
            !(cmd@.contains('/') && test_path_err(*fs, cmd@) is None),
            all_paths_from(cmd@, entries, *fs, 0) == crate::split::field_views(out@)
                + all_paths_from(cmd@, entries, *fs, i as int),
        decreases paths.len() - i,
    {
        proof {
            assert(entries[i as int] == paths@[i as int]@);
        }
        if paths[i].len() > 0 {
            let mut proposed = clone_chars(&paths[i]);
            append_path_component(&mut proposed, cmd);
            proof {
                assert(proposed@ == append_comp(entries[i as int], cmd@));
            }
            if test_path(fs, &proposed).is_none() {
                let ghost out_old = out@;
                out.push(proposed);
                proof {
                    crate::split::lemma_field_views_push(out_old, proposed);
                    assert(crate::split::field_views(out_old) + (seq![
                        append_comp(entries[i as int], cmd@),
                    ] + all_paths_from(cmd@, entries, *fs, i + 1)) =~= crate::split::field_views(
                        out@,
                    ) + all_paths_from(cmd@, entries, *fs, i + 1));
                }
            }
        }
        i = i + 1;
    }
    proof {
        assert(crate::split::field_views(out@) + Seq::<Seq<char>>::empty() =~= crate::split::field_views(out@));
    }
    out
}

} // verus!
