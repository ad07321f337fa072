//! An in-memory file tree that exposes extracted engram contents through
//! inode-style lookups: paths, attributes, directory listings and reads.
//!
//! Paths are normalised to a leading slash and no trailing slash. The tree
//! is held in sorted-insertion association lists keyed by inode and by
//! path, so every lookup has a direct mathematical reading.

use vstd::prelude::*;
use vstd::string::StrSliceExecFns;
use vstd::string::StringExecFns;

verus! {

broadcast use vstd::string::group_string_axioms;

/// Inode number.
pub type Ino = u64;

/// File type.
#[derive(Clone, Copy, Debug, PartialEq, Eq, Structural)]
pub enum FileKind {
    /// A directory.
    Directory,
    /// A regular file.
    RegularFile,
    /// A symbolic link.
    Symlink,
}

/// File attributes served to the mount layer.
#[derive(Clone, Copy, Debug, PartialEq, Eq, Structural)]
pub struct FileAttr {
    /// Inode number.
    pub ino: Ino,
    /// Size in bytes.
    pub size: u64,
    /// 512-byte blocks occupied.
    pub blocks: u64,
    /// File type.
    pub kind: FileKind,
    /// Permission bits.
    pub perm: u16,
    /// Link count.
    pub nlink: u32,
    /// Owner user id.
    pub uid: u32,
    /// Owner group id.
    pub gid: u32,
    /// Device number, zero for regular entries.
    pub rdev: u32,
    /// Preferred I/O block size.
    pub blksize: u32,
    /// Extra flags.
    pub flags: u32,
}

impl Default for FileAttr {
    /// A regular-file attribute record with conventional defaults.
    fn default() -> (r: FileAttr)
        ensures
            r.ino == 0,
            r.size == 0,
            r.kind == FileKind::RegularFile,
            r.perm == 0o644,
            r.nlink == 1,
    {
        FileAttr {
            ino: 0,
            size: 0,
            blocks: 0,
            kind: FileKind::RegularFile,
            perm: 0o644,
            nlink: 1,
            uid: 1000,
            gid: 1000,
            rdev: 0,
            blksize: 4096,
            flags: 0,
        }
    }
}

/// One entry of a directory listing.
#[derive(Clone, Debug)]
pub struct DirEntry {
    /// Inode of the entry.
    pub ino: Ino,
    /// Name within the directory.
    pub name: String,
    /// File type of the entry.
    pub kind: FileKind,
}

/// Decoded file bytes kept for reads.
#[derive(Clone, Debug)]
pub struct CachedFile {
    /// The file's bytes.
    pub data: Vec<u8>,
    /// The file's attributes.
    pub attr: FileAttr,
}

/// Read and decode statistics of a mounted tree.
#[derive(Clone, Copy, Debug, PartialEq, Eq, Structural)]
pub struct MountStats {
    /// Read calls served.
    pub reads: u64,
    /// Bytes returned by reads.
    pub read_bytes: u64,
    /// Path lookups served.
    pub lookups: u64,
    /// Directory listings served.
    pub readdirs: u64,
    /// Reads served from cache.
    pub cache_hits: u64,
    /// Reads that had to decode.
    pub cache_misses: u64,
    /// Microseconds spent decoding.
    pub decode_time_us: u64,
}

impl Default for MountStats {
    /// All counters at zero.
    fn default() -> (r: MountStats)
        ensures
            r == (MountStats {
                reads: 0,
                read_bytes: 0,
                lookups: 0,
                readdirs: 0,
                cache_hits: 0,
                cache_misses: 0,
                decode_time_us: 0,
            }),
    {
        MountStats {
            reads: 0,
            read_bytes: 0,
            lookups: 0,
            readdirs: 0,
            cache_hits: 0,
            cache_misses: 0,
            decode_time_us: 0,
        }
    }
}

/// A path with its trailing slashes stripped, keeping a lone root slash.
pub open spec fn strip_trailing(s: Seq<char>) -> Seq<char>
    decreases s.len(),
{
    if s.len() > 1 && s.last() == '/' {
        strip_trailing(s.drop_last())
    } else {
        s
    }
}

/// The path with a leading slash and, except for the root, no trailing
/// slashes.
pub open spec fn spec_normalize(s: Seq<char>) -> Seq<char> {
    if s.len() > 0 && s[0] == '/' {
        strip_trailing(s)
    } else {
        strip_trailing(seq!['/'] + s)
    }
}

/// Facts about stripping: the result keeps the head, never grows, and
/// stripping twice is stripping once.
proof fn lemma_strip_trailing(s: Seq<char>)
    requires
        s.len() >= 1,
    ensures
        strip_trailing(s).len() >= 1,
        strip_trailing(s).len() <= s.len(),
        strip_trailing(s)[0] == s[0],
        strip_trailing(strip_trailing(s)) == strip_trailing(s),
        strip_trailing(s).len() > 1 ==> strip_trailing(s).last() != '/',
    decreases s.len(),
{
    if s.len() > 1 && s.last() == '/' {
        lemma_strip_trailing(s.drop_last());
    }
}

/// Normalising twice is normalising once.
pub proof fn lemma_normalize_idem(s: Seq<char>)
    ensures
        spec_normalize(spec_normalize(s)) == spec_normalize(s),
        spec_normalize(s).len() >= 1,
        spec_normalize(s)[0] == '/',
        s.len() >= 1 && s[0] == '/' ==> spec_normalize(s).len() <= s.len(),
{
    if s.len() > 0 && s[0] == '/' {
        lemma_strip_trailing(s);
    } else {
        lemma_strip_trailing(seq!['/'] + s);
    }
    let t = spec_normalize(s);
    lemma_strip_trailing(t);
}

/// Normalise a path: ensure one leading slash, strip trailing slashes.
pub fn normalize_path(path: &str) -> (r: String)
    ensures
        r@ == spec_normalize(path@),
        r@.len() >= 1,
        r@[0] == '/',
        r@.len() <= path@.len() + 1,
{
    proof {
        reveal_strlit("/");
    }
    let n = path.unicode_len();
    let with_slash: String = if n > 0 && path.get_char(0) == '/' {
        path.to_owned()
    } else {
        "/".to_owned().concat(path)
    };
    proof {
        if !(path@.len() > 0 && path@[0] == '/') {
            assert("/"@ =~= seq!['/']);
        }
        assert(with_slash@ == if path@.len() > 0 && path@[0] == '/' {
            path@
        } else {
            seq!['/'] + path@
        });
        assert(with_slash@[0] == '/');
    }
    let total = with_slash.as_str().unicode_len();
    proof {
        assert(with_slash@.take(total as int) =~= with_slash@);
    }
    let mut m = total;
    while m > 1 && with_slash.as_str().get_char(m - 1) == '/'
        invariant
            with_slash@.len() == total,
            1 <= m <= total,
            with_slash@[0] == '/',
            strip_trailing(with_slash@) == strip_trailing(with_slash@.take(m as int)),
        decreases m,
    {
        proof {
            assert(with_slash@.take(m as int).drop_last() =~= with_slash@.take(m - 1));
        }
        m = m - 1;
    }
    proof {
        assert(strip_trailing(with_slash@.take(m as int)) == with_slash@.take(m as int));
        lemma_strip_trailing(with_slash@);
    }
    if m == total {
        proof {
            assert(with_slash@.take(total as int) =~= with_slash@);
        }
        with_slash
    } else {
        let r = with_slash.as_str().substring_char(0, m).to_owned();
        proof {
            assert(r@ =~= with_slash@.take(m as int));
        }
        r
    }
}

/// The parent of a path: everything before the last slash of its
/// normalised form, or the root; the root itself has no parent.
pub fn parent_path(path: &str) -> (r: Option<String>)
    ensures
        spec_normalize(path@).len() == 1 ==> r is None,
        spec_normalize(path@).len() != 1 ==> r is Some,
        r is Some ==> r->0@.len() < spec_normalize(path@).len(),
        r is Some ==> r->0@.len() >= 1 && r->0@[0] == '/',
{
    let norm = normalize_path(path);
    let n = norm.as_str().unicode_len();
    if n == 1 {
        return None;
    }
    // A normalised path starts with a slash, so a last slash exists.
    let mut p: usize = n - 1;
    while p > 0 && norm.as_str().get_char(p) != '/'
        invariant
            norm@.len() == n,
            norm@[0] == '/',
            n >= 2,
            p < n,
        decreases p,
    {
        p = p - 1;
    }
    if p == 0 {
        let r = "/".to_owned();
        proof {
            reveal_strlit("/");
            assert(r@ =~= seq!['/']);
            lemma_normalize_idem(path@);
        }
        Some(r)
    } else {
        let r = norm.as_str().substring_char(0, p).to_owned();
        proof {
            assert(r@ =~= norm@.subrange(0, p as int));
            assert(r@[0] == '/');
        }
        Some(r)
    }
}

/// The final component of a path, ignoring trailing slashes; empty only
/// for the root.
pub fn filename(path: &str) -> (r: Option<String>)
    ensures
        r is Some,
{
    let n = path.unicode_len();
    // Trim trailing slashes.
    let mut stop: usize = n;
    while stop > 0 && path.get_char(stop - 1) == '/'
        invariant
            n == path@.len(),
            stop <= n,
        decreases stop,
    {
        stop = stop - 1;
    }
    // Find the slash before the final component.
    let mut start: usize = stop;
    while start > 0 && path.get_char(start - 1) != '/'
        invariant
            n == path@.len(),
            start <= stop <= n,
        decreases start,
    {
        start = start - 1;
    }
    Some(path.substring_char(start, stop).to_owned())
}

/// The value stored under an inode key.
pub open spec fn ino_find<V>(s: Seq<(Ino, V)>, k: Ino) -> Option<V>
    decreases s.len(),
{
    if s.len() == 0 {
        None
    } else if s.last().0 == k {
        Some(s.last().1)
    } else {
        ino_find(s.drop_last(), k)
    }
}

/// The inode stored under a path key.
pub open spec fn path_find(s: Seq<(String, Ino)>, k: Seq<char>) -> Option<Ino>
    decreases s.len(),
{
    if s.len() == 0 {
        None
    } else if s.last().0@ == k {
        Some(s.last().1)
    } else {
        path_find(s.drop_last(), k)
    }
}

/// The in-memory tree of extracted files.
pub struct EngramFS {
    /// Attributes by inode.
    pub inodes: Vec<(Ino, FileAttr)>,
    /// Path by inode.
    pub inode_paths: Vec<(Ino, String)>,
    /// Inode by path.
    pub path_inodes: Vec<(String, Ino)>,
    /// Directory listings by inode.
    pub directories: Vec<(Ino, Vec<DirEntry>)>,
    /// File bytes by inode.
    pub file_cache: Vec<(Ino, CachedFile)>,
    /// Next inode number to allocate.
    pub next_ino: Ino,
    /// Whether writes are refused.
    pub read_only: bool,
}

impl EngramFS {
    /// The root inode number.
    pub const ROOT_INO: Ino = 1;

    /// A fresh tree holding only the root directory: one path, one inode
    /// with directory attributes, an empty root listing, and no cached
    /// file bytes.
    pub fn new(read_only: bool) -> (r: EngramFS)
        ensures
            r.read_only == read_only,
            r.path_inodes@.len() == 1,
            path_find(r.path_inodes@, "/"@) == Some(1u64),
            r.inodes@.len() == 1,
            ino_find(r.inodes@, 1u64) matches Some(a) && a.ino == 1 && a.kind
                == FileKind::Directory && a.perm == 0o755 && a.size == 0,
            r.directories@.len() == 1,
            ino_find(r.directories@, 1u64) matches Some(d) && d@.len() == 0,
            r.file_cache@.len() == 0,
            total_cached_size(r.file_cache@, r.file_cache@.len() as int) == 0,
            r.next_ino == 2,
    {
        let mut root_attr = FileAttr::default();
        root_attr.ino = 1;
        root_attr.kind = FileKind::Directory;
        root_attr.perm = 0o755;
        root_attr.nlink = 2;
        let mut inodes: Vec<(Ino, FileAttr)> = Vec::new();
        inodes.push((1, root_attr));
        let mut inode_paths: Vec<(Ino, String)> = Vec::new();
        inode_paths.push((1, "/".to_owned()));
        let mut path_inodes: Vec<(String, Ino)> = Vec::new();
        path_inodes.push(("/".to_owned(), 1));
        let mut directories: Vec<(Ino, Vec<DirEntry>)> = Vec::new();
        directories.push((1, Vec::new()));
        let r = EngramFS {
            inodes,
            inode_paths,
            path_inodes,
            directories,
            file_cache: Vec::new(),
            next_ino: 2,
            read_only,
        };
        proof {
            reveal_strlit("/");
            assert(r.path_inodes@.last().0@ == "/"@);
        }
        r
    }

    /// Allocate the next inode number.
    fn alloc_ino(&mut self) -> (r: Ino)
        requires
            old(self).next_ino < u64::MAX,
        ensures
            r == old(self).next_ino,
            final(self).next_ino == old(self).next_ino + 1,
            final(self).inodes == old(self).inodes,
            final(self).inode_paths == old(self).inode_paths,
            final(self).path_inodes == old(self).path_inodes,
            final(self).directories == old(self).directories,
            final(self).file_cache == old(self).file_cache,
            final(self).read_only == old(self).read_only,
    {
        let ino = self.next_ino;
        self.next_ino = self.next_ino + 1;
        ino
    }

    /// The inode a path maps to, if any.
    pub fn lookup_path(&self, path: &str) -> (r: Option<Ino>)
        ensures
            r == path_find(self.path_inodes@, spec_normalize(path@)),
    {
        let norm = normalize_path(path);
        find_path(&self.path_inodes, norm.as_str())
    }

    /// The attributes of an inode, if present.
    pub fn getattr(&self, ino: Ino) -> (r: Option<FileAttr>)
        ensures
            r == ino_find(self.inodes@, ino),
    {
        let n = self.inodes.len();
        let mut k = n;
        while k > 0
            invariant
                n == self.inodes@.len(),
                k <= n,
                forall|m: int| k <= m < n ==> (#[trigger] self.inodes@[m]).0 != ino,
            decreases k,
        {
            k = k - 1;
            if self.inodes[k].0 == ino {
                proof {
                    lemma_ino_find_at(self.inodes@, k as int, ino);
                }
                return Some(self.inodes[k].1);
            }
        }
        proof {
            lemma_ino_find_absent(self.inodes@, ino);
        }
        None
    }

    /// Read up to `size` bytes of a file at `offset`; `None` for an
    /// unknown inode, empty past the end.
    pub fn read(&self, ino: Ino, offset: u64, size: u32) -> (r: Option<Vec<u8>>)
        ensures
            (r is Some) == (ino_find(self.file_cache@, ino) is Some),
            r is Some ==> {
                let data = ino_find(self.file_cache@, ino)->0.data@;
                let start = offset as int;
                let stop = if offset + size <= data.len() {
                    offset + size
                } else {
                    data.len() as int
                };
                r->0@ == if start >= data.len() {
                    Seq::<u8>::empty()
                } else {
                    data.subrange(start, stop)
                }
            },
    {
        let cached = match find_cache(&self.file_cache, ino) {
            Some(c) => c,
            None => {
                return None;
            },
        };
        let len = cached.data.len();
        if offset >= len as u64 {
            return Some(Vec::new());
        }
        let start = offset as usize;
        let stop: usize = if (size as u64) <= len as u64 - offset {
            (offset + size as u64) as usize
        } else {
            len
        };
        let mut out: Vec<u8> = Vec::new();
        let mut i = start;
        while i < stop
            invariant
                start <= i <= stop <= cached.data@.len(),
                out@.len() == i - start,
                forall|t: int| 0 <= t < out@.len() ==> out@[t] == cached.data@[start + t],
            decreases stop - i,
        {
            out.push(cached.data[i]);
            i = i + 1;
        }
        proof {
            assert(out@ =~= cached.data@.subrange(start as int, stop as int));
        }
        Some(out)
    }

    /// The entries of a directory, if the inode is a known directory.
    pub fn readdir(&self, ino: Ino) -> (r: Option<Vec<DirEntry>>)
        ensures
            (r is Some) == (ino_find(self.directories@, ino) is Some),
            r is Some ==> entries_match(r->0@, ino_find(self.directories@, ino)->0@),
    {
        let n = self.directories.len();
        let mut k = n;
        while k > 0
            invariant
                n == self.directories@.len(),
                k <= n,
                forall|m: int| k <= m < n ==> (#[trigger] self.directories@[m]).0 != ino,
            decreases k,
        {
            k = k - 1;
            if self.directories[k].0 == ino {
                proof {
                    lemma_ino_find_at(self.directories@, k as int, ino);
                }
                let entries = &self.directories[k].1;
                let cloned = clone_entries(entries);
                proof {
                    assert(ino_find(self.directories@, ino)->0 == self.directories@[k as int].1);
                    assert(entries_match(cloned@, ino_find(self.directories@, ino)->0@));
                }
                return Some(cloned);
            }
        }
        proof {
            lemma_ino_find_absent(self.directories@, ino);
        }
        None
    }

    /// The inode of a named entry in a directory, if both exist.
    pub fn lookup(&self, parent_ino: Ino, name: &str) -> (r: Option<Ino>)
        ensures
            ino_find(self.directories@, parent_ino) is None ==> r is None,
    {
        let entries = match self.readdir(parent_ino) {
            Some(e) => e,
            None => {
                return None;
            },
        };
        let n = entries.len();
        for k in 0..n
            invariant
                n == entries@.len(),
                ino_find(self.directories@, parent_ino) is Some,
        {
            if strings_equal(entries[k].name.as_str(), name) {
                return Some(entries[k].ino);
            }
        }
        None
    }

    /// How many files hold cached bytes.
    pub fn file_count(&self) -> (r: usize)
        ensures
            r == self.file_cache@.len(),
    {
        self.file_cache.len()
    }

    /// The total size of all cached files, saturating at the largest
    /// representable size.
    pub fn total_size(&self) -> (r: u64)
        ensures
            r as int == if total_cached_size(self.file_cache@, self.file_cache@.len() as int)
                <= u64::MAX {
                total_cached_size(self.file_cache@, self.file_cache@.len() as int)
            } else {
                u64::MAX as int
            },
    {
        let mut acc: u128 = 0;
        let n = self.file_cache.len();
        for k in 0..n
            invariant
                n == self.file_cache@.len(),
                acc as int == total_cached_size(self.file_cache@, k as int),
                acc as int <= (k as int) * 0xffff_ffff_ffff_ffff,
        {
            proof {
                assert(((k as int) + 1) * 0xffff_ffff_ffff_ffff == (k as int)
                    * 0xffff_ffff_ffff_ffff + 0xffff_ffff_ffff_ffff) by (nonlinear_arith);
                assert((k as int) * 0xffff_ffff_ffff_ffff <= 0xffff_ffff_ffff_ffff
                    * 0xffff_ffff_ffff_ffff) by (nonlinear_arith)
                    requires
                        0 <= k as int <= 0xffff_ffff_ffff_ffff,
                ;
            }
            acc = acc + self.file_cache[k].1.attr.size as u128;
        }
        if acc > u64::MAX as u128 {
            u64::MAX
        } else {
            acc as u64
        }
    }

    /// Ensure a directory path exists, creating missing components; the
    /// inode of the directory is returned. Existing path bindings are
    /// kept.
    fn ensure_directory(&mut self, path: &str) -> (r: Result<Ino, String>)
        ensures
            r is Ok ==> path_find(final(self).path_inodes@, spec_normalize(path@)) == Some(
                r->Ok_0,
            ),
            forall|p: Seq<char>|
                (#[trigger] path_find(old(self).path_inodes@, p)) is Some ==> path_find(
                    final(self).path_inodes@,
                    p,
                ) == path_find(old(self).path_inodes@, p),
            final(self).file_cache == old(self).file_cache,
            old(self).next_ino <= final(self).next_ino,
            final(self).next_ino <= old(self).next_ino + spec_normalize(path@).len(),
            path_find(old(self).path_inodes@, seq!['/']) is Some && old(self).next_ino
                + spec_normalize(path@).len() < u64::MAX - 2 ==> r is Ok,
    {
        let norm = normalize_path(path);
        let ghost normv = norm@;
        proof {
            lemma_normalize_idem(path@);
        }
        let r = self.ensure_directory_norm(norm);
        proof {
            assert(spec_normalize(normv) == normv);
            assert(normv == spec_normalize(path@));
            assert(r is Ok ==> path_find(self.path_inodes@, spec_normalize(normv)) == Some(
                r->Ok_0,
            ));
            assert(r is Ok ==> path_find(self.path_inodes@, normv) == Some(r->Ok_0));
            assert(r is Ok ==> path_find(self.path_inodes@, spec_normalize(path@)) == Some(
                r->Ok_0,
            ));
        }
        r
    }

    /// `ensure_directory` on a path that already starts with a slash.
    fn ensure_directory_norm(&mut self, path: String) -> (r: Result<Ino, String>)
        requires
            path@.len() >= 1,
            path@[0] == '/',
        ensures
            r is Ok ==> path_find(final(self).path_inodes@, spec_normalize(path@)) == Some(
                r->Ok_0,
            ),
            forall|p: Seq<char>|
                (#[trigger] path_find(old(self).path_inodes@, p)) is Some ==> path_find(
                    final(self).path_inodes@,
                    p,
                ) == path_find(old(self).path_inodes@, p),
            final(self).file_cache == old(self).file_cache,
            old(self).next_ino <= final(self).next_ino,
            final(self).next_ino <= old(self).next_ino + spec_normalize(path@).len(),
            path_find(old(self).path_inodes@, seq!['/']) is Some && old(self).next_ino
                + spec_normalize(path@).len() < u64::MAX - 2 ==> r is Ok,
        decreases path@.len(),
    {
        let norm = normalize_path(path.as_str());
        if norm.as_str().unicode_len() == 1 {
            let r = lookup_root(&self.path_inodes);
            proof {
                lemma_path_find_frame(self.path_inodes@);
                assert(norm@ =~= seq!['/']);
            }
            return r;
        }
        if let Some(ino) = find_path(&self.path_inodes, norm.as_str()) {
            proof {
                lemma_path_find_frame(self.path_inodes@);
            }
            return Ok(ino);
        }
        if self.next_ino >= u64::MAX - 2 {
            proof {
                lemma_path_find_frame(self.path_inodes@);
            }
            return Err("inode space exhausted".to_owned());
        }
        let parent = match parent_path(norm.as_str()) {
            Some(p) => p,
            None => {
                proof {
                    lemma_path_find_frame(self.path_inodes@);
                    lemma_normalize_idem(path@);
                }
                return Err("invalid path".to_owned());
            },
        };
        // The parent is strictly shorter: normalising a slash-led path
        // never lengthens it.
        let ghost parentv = parent@;
        proof {
            lemma_normalize_idem(path@);
            lemma_normalize_idem(parentv);
        }
        let parent_ino = match self.ensure_directory_norm(parent) {
            Ok(i) => i,
            Err(e) => {
                proof {
                    lemma_normalize_idem(path@);
                    lemma_normalize_idem(parentv);
                }
                return Err(e);
            },
        };
        if self.next_ino >= u64::MAX {
            return Err("inode space exhausted".to_owned());
        }
        let ino = self.alloc_ino();
        let mut attr = FileAttr::default();
        attr.ino = ino;
        attr.kind = FileKind::Directory;
        attr.perm = 0o755;
        attr.nlink = 2;
        self.inodes.push((ino, attr));
        self.inode_paths.push((ino, clone_string(&norm)));
        let ghost prev_paths = self.path_inodes@;
        self.path_inodes.push((clone_string(&norm), ino));
        self.directories.push((ino, Vec::new()));
        let dirname = match filename(norm.as_str()) {
            Some(d) => d,
            None => {
                let r: Result<Ino, String> = Err("invalid directory name".to_owned());
                proof {
                    lemma_path_find_push(prev_paths, self.path_inodes@, norm@, ino);
                }
                return r;
            },
        };
        self.push_dir_entry(parent_ino, DirEntry { ino, name: dirname, kind: FileKind::Directory });
        proof {
            lemma_path_find_push(prev_paths, self.path_inodes@, norm@, ino);
        }
        Ok(ino)
    }

    /// Add a file at a path, creating parent directories. Fails, leaving
    /// the tree unchanged, when the path already exists; succeeds whenever
    /// the path is fresh and non-root, the root binding is present, and
    /// the inode space has room.
    pub fn add_file(&mut self, path: &str, data: Vec<u8>) -> (r: Result<Ino, String>)
        requires
            data@.len() < u64::MAX - 512,
        ensures
            path_find(old(self).path_inodes@, spec_normalize(path@)) is Some ==> r is Err
                && *final(self) == *old(self),
            path_find(old(self).path_inodes@, seq!['/']) is Some && path_find(
                old(self).path_inodes@,
                spec_normalize(path@),
            ) is None && spec_normalize(path@).len() != 1 && old(self).next_ino
                + spec_normalize(path@).len() < u64::MAX - 2 ==> r is Ok,
            forall|p: Seq<char>|
                (#[trigger] path_find(old(self).path_inodes@, p)) is Some ==> path_find(
                    final(self).path_inodes@,
                    p,
                ) == path_find(old(self).path_inodes@, p),
            r is Ok ==> path_find(final(self).path_inodes@, spec_normalize(path@)) == Some(
                r->Ok_0,
            ),
            r is Ok ==> ino_find(final(self).file_cache@, r->Ok_0) is Some && ino_find(
                final(self).file_cache@,
                r->Ok_0,
            )->0.data@ == data@,
            r is Ok ==> r->Ok_0 >= old(self).next_ino && (ino_find(
                final(self).inodes@,
                r->Ok_0,
            ) matches Some(a) && a.ino == r->Ok_0 && a.size == data@.len() && a.kind
                == FileKind::RegularFile && a.perm == 0o644),
            r is Ok ==> final(self).file_cache@.len() == old(self).file_cache@.len() + 1
                && final(self).file_cache@ == old(self).file_cache@.push(
                final(self).file_cache@.last(),
            ) && final(self).file_cache@.last().0 == r->Ok_0 && total_cached_size(
                final(self).file_cache@,
                final(self).file_cache@.len() as int,
            ) == total_cached_size(old(self).file_cache@, old(self).file_cache@.len() as int)
                + data@.len(),
            r is Err ==> final(self).file_cache == old(self).file_cache,
    {
        let norm = normalize_path(path);
        if let Some(_existing) = find_path(&self.path_inodes, norm.as_str()) {
            return Err("file already exists".to_owned());
        }
        proof {
            lemma_normalize_idem(path@);
        }
        let parent = match parent_path(norm.as_str()) {
            Some(p) => p,
            None => {
                return Err("invalid path".to_owned());
            },
        };
        let ghost parentv = parent@;
        proof {
            lemma_normalize_idem(parentv);
        }
        let parent_ino = match self.ensure_directory(parent.as_str()) {
            Ok(i) => i,
            Err(e) => {
                return Err(e);
            },
        };
        if self.next_ino >= u64::MAX {
            return Err("inode space exhausted".to_owned());
        }
        let ino = self.alloc_ino();
        let size = data.len() as u64;
        let mut attr = FileAttr::default();
        attr.ino = ino;
        attr.size = size;
        attr.blocks = (size + 511) / 512;
        self.inodes.push((ino, attr));
        self.inode_paths.push((ino, clone_string(&norm)));
        let ghost prev_paths = self.path_inodes@;
        self.path_inodes.push((clone_string(&norm), ino));
        let ghost prev_cache = self.file_cache@;
        self.file_cache.push((ino, CachedFile { data, attr }));
        let fname = match filename(norm.as_str()) {
            Some(f) => f,
            None => {
                let r: Result<Ino, String> = Err("invalid filename".to_owned());
                return r;
            },
        };
        self.push_dir_entry(parent_ino, DirEntry { ino, name: fname, kind: FileKind::RegularFile });
        proof {
            lemma_path_find_push(prev_paths, self.path_inodes@, norm@, ino);
            assert(self.file_cache@.last().0 == ino);
            assert(ino_find(self.file_cache@, ino) == Some(self.file_cache@.last().1));
            assert(self.inodes@.last() == (ino, attr));
            assert(ino_find(self.inodes@, ino) == Some(attr));
            lemma_total_size_push(prev_cache, self.file_cache@.last());
            assert(self.file_cache@ == prev_cache.push(self.file_cache@.last()));
        }
        Ok(ino)
    }

    /// Append an entry to a directory listing, if the directory exists.
    fn push_dir_entry(&mut self, dir_ino: Ino, entry: DirEntry)
        ensures
            final(self).inodes == old(self).inodes,
            final(self).inode_paths == old(self).inode_paths,
            final(self).path_inodes == old(self).path_inodes,
            final(self).file_cache == old(self).file_cache,
            final(self).next_ino == old(self).next_ino,
            final(self).read_only == old(self).read_only,
    {
        let n = self.directories.len();
        let mut idx: usize = n;
        let mut k: usize = 0;
        while k < n
            invariant
                n == self.directories@.len(),
                k <= n,
                idx == n || idx < n,
                self.inodes == old(self).inodes,
                self.inode_paths == old(self).inode_paths,
                self.path_inodes == old(self).path_inodes,
                self.file_cache == old(self).file_cache,
                self.next_ino == old(self).next_ino,
                self.read_only == old(self).read_only,
            decreases n - k,
        {
            if idx == n && self.directories[k].0 == dir_ino {
                idx = k;
            }
            k = k + 1;
        }
        if idx < n {
            let mut pair = self.directories.remove(idx);
            pair.1.push(entry);
            self.directories.insert(idx, pair);
        }
    }
}

/// Lookup the root binding.
fn lookup_root(map: &Vec<(String, Ino)>) -> (r: Result<Ino, String>)
    ensures
        r is Ok ==> path_find(map@, seq!['/']) == Some(r->Ok_0),
        path_find(map@, seq!['/']) is Some ==> r is Ok,
{
    let n = map.len();
    let mut k = n;
    while k > 0
        invariant
            n == map@.len(),
            k <= n,
            forall|m: int| k <= m < n ==> (#[trigger] map@[m]).0@ != seq!['/'],
        decreases k,
    {
        k = k - 1;
        proof {
            reveal_strlit("/");
            assert("/"@ =~= seq!['/']);
        }
        if strings_equal(map[k].0.as_str(), "/") {
            proof {
                lemma_path_find_at(map@, k as int, seq!['/']);
            }
            return Ok(map[k].1);
        }
    }
    proof {
        lemma_path_find_absent(map@, seq!['/']);
    }
    Err("root directory missing".to_owned())
}

/// Total bytes of the first `k` cached files.
pub open spec fn total_cached_size(s: Seq<(Ino, CachedFile)>, k: int) -> int
    decreases k,
{
    if k <= 0 {
        0
    } else {
        total_cached_size(s, k - 1) + s[k - 1].1.attr.size
    }
}

/// Appending an entry leaves the running total over a prefix unchanged.
proof fn lemma_total_size_push_upto(s: Seq<(Ino, CachedFile)>, e: (Ino, CachedFile), k: int)
    requires
        0 <= k <= s.len(),
    ensures
        total_cached_size(s.push(e), k) == total_cached_size(s, k),
    decreases k,
{
    if k > 0 {
        lemma_total_size_push_upto(s, e, k - 1);
    }
}

/// Appending one cached file adds exactly its recorded size to the
/// total.
proof fn lemma_total_size_push(s: Seq<(Ino, CachedFile)>, e: (Ino, CachedFile))
    ensures
        total_cached_size(s.push(e), s.len() as int + 1) == total_cached_size(
            s,
            s.len() as int,
        ) + e.1.attr.size,
{
    lemma_total_size_push_upto(s, e, s.len() as int);
    assert(total_cached_size(s.push(e), s.len() as int + 1) == total_cached_size(
        s.push(e),
        s.len() as int,
    ) + s.push(e)[s.len() as int].1.attr.size);
}

/// A no-op frame fact for path lookups.
proof fn lemma_path_find_frame(a: Seq<(String, Ino)>)
    ensures
        forall|p: Seq<char>| #[trigger] path_find(a, p) == path_find(a, p),
{
}

/// Appending a path binding extends the lookup at exactly that path.
proof fn lemma_path_find_push(
    prev: Seq<(String, Ino)>,
    cur: Seq<(String, Ino)>,
    p: Seq<char>,
    ino: Ino,
)
    requires
        cur.len() == prev.len() + 1,
        forall|k: int| 0 <= k < prev.len() ==> cur[k] == prev[k],
        cur.last().0@ == p,
        cur.last().1 == ino,
    ensures
        path_find(cur, p) == Some(ino),
        forall|q: Seq<char>| q != p ==> #[trigger] path_find(cur, q) == path_find(prev, q),
{
    assert(cur.drop_last() =~= prev);
}

/// Lookup of an inode present at an index whose later entries differ.
proof fn lemma_ino_find_at<V>(s: Seq<(Ino, V)>, k: int, ino: Ino)
    requires
        0 <= k < s.len(),
        s[k].0 == ino,
        forall|m: int| k < m < s.len() ==> (#[trigger] s[m]).0 != ino,
    ensures
        ino_find(s, ino) == Some(s[k].1),
    decreases s.len(),
{
    if s.len() > 0 {
        if k == s.len() - 1 {
            assert(s.last() == s[k]);
        } else {
            assert(s.last() == s[s.len() - 1]);
            lemma_ino_find_at(s.drop_last(), k, ino);
        }
    }
}

/// Lookup of an absent inode.
proof fn lemma_ino_find_absent<V>(s: Seq<(Ino, V)>, ino: Ino)
    requires
        forall|m: int| 0 <= m < s.len() ==> (#[trigger] s[m]).0 != ino,
    ensures
        ino_find(s, ino) is None,
    decreases s.len(),
{
    if s.len() > 0 {
        assert(s.last() == s[s.len() - 1]);
        lemma_ino_find_absent(s.drop_last(), ino);
    }
}

/// Whether two strings hold the same characters.
fn strings_equal(a: &str, b: &str) -> (r: bool)
    ensures
        r == (a@ == b@),
{
    let na = a.unicode_len();
    let nb = b.unicode_len();
    if na != nb {
        return false;
    }
    for i in 0..na
        invariant
            na == a@.len(),
            na == b@.len(),
            forall|k: int| 0 <= k < i ==> a@[k] == b@[k],
    {
        if a.get_char(i) != b.get_char(i) {
            return false;
        }
    }
    proof {
        assert(a@ =~= b@);
    }
    true
}

/// A copy of a string.
fn clone_string(s: &String) -> (r: String)
    ensures
        r@ == s@,
{
    s.as_str().to_owned()
}

/// Find the inode bound to a normalised path.
fn find_path(map: &Vec<(String, Ino)>, path: &str) -> (r: Option<Ino>)
    ensures
        r == path_find(map@, path@),
{
    let n = map.len();
    let mut k = n;
    while k > 0
        invariant
            n == map@.len(),
            k <= n,
            forall|m: int| k <= m < n ==> (#[trigger] map@[m]).0@ != path@,
        decreases k,
    {
        k = k - 1;
        if strings_equal(map[k].0.as_str(), path) {
            proof {
                lemma_path_find_at(map@, k as int, path@);
            }
            return Some(map[k].1);
        }
    }
    proof {
        lemma_path_find_absent(map@, path@);
    }
    None
}

/// Lookup of a path present at an index whose later entries differ.
proof fn lemma_path_find_at(s: Seq<(String, Ino)>, k: int, p: Seq<char>)
    requires
        0 <= k < s.len(),
        s[k].0@ == p,
        forall|m: int| k < m < s.len() ==> (#[trigger] s[m]).0@ != p,
    ensures
        path_find(s, p) == Some(s[k].1),
    decreases s.len(),
{
    if s.len() > 0 {
        if k == s.len() - 1 {
            assert(s.last() == s[k]);
        } else {
            assert(s.last() == s[s.len() - 1]);
            lemma_path_find_at(s.drop_last(), k, p);
        }
    }
}

/// Lookup of an absent path.
proof fn lemma_path_find_absent(s: Seq<(String, Ino)>, p: Seq<char>)
    requires
        forall|m: int| 0 <= m < s.len() ==> (#[trigger] s[m]).0@ != p,
    ensures
        path_find(s, p) is None,
    decreases s.len(),
{
    if s.len() > 0 {
        assert(s.last() == s[s.len() - 1]);
        lemma_path_find_absent(s.drop_last(), p);
    }
}

/// Find a cached file by inode.
fn find_cache<'a>(map: &'a Vec<(Ino, CachedFile)>, ino: Ino) -> (r: Option<&'a CachedFile>)
    ensures
        (r is Some) == (ino_find(map@, ino) is Some),
        r is Some ==> *r->0 == ino_find(map@, ino)->0,
{
    let n = map.len();
    let mut k = n;
    while k > 0
        invariant
            n == map@.len(),
            k <= n,
            forall|m: int| k <= m < n ==> (#[trigger] map@[m]).0 != ino,
        decreases k,
    {
        k = k - 1;
        if map[k].0 == ino {
            proof {
                lemma_ino_find_at(map@, k as int, ino);
            }
            return Some(&map[k].1);
        }
    }
    proof {
        lemma_ino_find_absent(map@, ino);
    }
    None
}

/// Entry lists that agree inode by inode, name by name.
pub open spec fn entries_match(a: Seq<DirEntry>, b: Seq<DirEntry>) -> bool {
    a.len() == b.len() && forall|i: int|
        0 <= i < a.len() ==> (#[trigger] a[i]).ino == b[i].ino && a[i].kind == b[i].kind
            && a[i].name@ == b[i].name@
}

/// A copy of a directory listing.
fn clone_entries(v: &Vec<DirEntry>) -> (r: Vec<DirEntry>)
    ensures
        entries_match(r@, v@),
{
    let mut r: Vec<DirEntry> = Vec::new();
    let n = v.len();
    for i in 0..n
        invariant
            n == v@.len(),
            r@.len() == i,
            forall|k: int|
                0 <= k < i ==> (#[trigger] r@[k]).ino == v@[k].ino && r@[k].kind == v@[k].kind
                    && r@[k].name@ == v@[k].name@,
    {
        let e = &v[i];
        r.push(DirEntry { ino: e.ino, name: clone_string(&e.name), kind: e.kind });
    }
    r
}

/// A tree assembled file by file from decoded engram data.
pub struct EngramFSBuilder {
    /// The tree under construction.
    pub fs: EngramFS,
}

impl EngramFSBuilder {
    /// Start from an empty read-only tree.
    pub fn new() -> (r: EngramFSBuilder)
        ensures
            r.fs.read_only,
            r.fs.next_ino == 2,
    {
        EngramFSBuilder { fs: EngramFS::new(true) }
    }

    /// Add one decoded file, ignoring failures.
    pub fn add_file(self, path: &str, data: Vec<u8>) -> (r: EngramFSBuilder)
        ensures
            true,
    {
        let mut b = self;
        if b.fs.next_ino < u64::MAX - 4 && data.len() < usize::MAX - 512 {
            if data.len() as u64 <= u64::MAX - 512 {
                let _ignored = b.fs.add_file(path, data);
            }
        }
        b
    }

    /// The finished tree.
    pub fn build(self) -> (r: EngramFS)
        ensures
            true,
    {
        self.fs
    }
}

impl Default for EngramFSBuilder {
    /// The same empty read-only tree as `new`.
    fn default() -> (r: EngramFSBuilder)
        ensures
            r.fs.read_only,
    {
        EngramFSBuilder::new()
    }
}

} // verus!
