//! Which files a scan looks at.
//!
//! Directory traversal and reading are I/O and belong to the caller, behind
//! the [`FileSource`] trait.  The decision that callers share — whether a
//! path names an allowed text file — is made here, on the path alone.

use vstd::prelude::*;

verus! {

/// Why a file could not be provided: an I/O failure, with its message, or a
/// path that is not an allowed text file.
#[derive(Debug)]
pub enum FileSourceError {
    Io(String),
    NotTextFile(String),
}

/// A provider of documents: lists the paths to scan and reads one of them.
/// Implementations do I/O and live outside this crate's verified code.
pub trait FileSource {
    fn files(&self) -> Result<Vec<String>, FileSourceError>;

    fn read_file(&self, path: &str) -> Result<String, FileSourceError>;
}

/// An ASCII upper-case letter mapped to lower case; all else unchanged.
pub open spec fn ascii_lower(c: char) -> char {
    if 'A' <= c && c <= 'Z' {
        ((c as u8) + 0x20) as char
    } else {
        c
    }
}

/// ASCII-case-insensitive equality of two character sequences.
pub open spec fn eq_ignore_ascii_case(a: Seq<char>, b: Seq<char>) -> bool {
    a.map_values(|c: char| ascii_lower(c)) == b.map_values(|c: char| ascii_lower(c))
}

/// The last position of `c` in `p`, or -1 when `c` does not occur.
pub open spec fn last_index_of(p: Seq<char>, c: char) -> int
    decreases p.len(),
{
    if p.len() == 0 {
        -1
    } else if p.last() == c {
        p.len() - 1
    } else {
        last_index_of(p.drop_last(), c)
    }
}

/// The last position is inside the sequence.
proof fn lemma_last_index_bounds(p: Seq<char>, c: char)
    ensures
        -1 <= last_index_of(p, c) < p.len(),
    decreases p.len(),
{
    if p.len() > 0 && p.last() != c {
        lemma_last_index_bounds(p.drop_last(), c);
    }
}

/// The last position of `c` in a suffix of `p` is the last position in `p`
/// when that falls inside the suffix, and is absent otherwise.
proof fn lemma_last_index_skip(p: Seq<char>, c: char, m: int)
    requires
        0 <= m <= p.len(),
    ensures
        last_index_of(p.skip(m), c) == if last_index_of(p, c) >= m {
            last_index_of(p, c) - m
        } else {
            -1
        },
    decreases p.len(),
{
    lemma_last_index_bounds(p, c);
    if p.len() == m {
        assert(p.skip(m) =~= Seq::<char>::empty());
    } else {
        let q = p.skip(m);
        assert(q.last() == p.last());
        if p.last() == c {
            assert(last_index_of(q, c) == q.len() - 1);
        } else {
            assert(q.drop_last() =~= p.drop_last().skip(m));
            lemma_last_index_skip(p.drop_last(), c, m);
        }
    }
}

/// The extension of a path: what follows the last `.` of the part after the
/// last `/`, unless that part has no `.` or only a leading one.
pub open spec fn extension_of(p: Seq<char>) -> Option<Seq<char>> {
    let name = p.skip(last_index_of(p, '/') + 1);
    let di = last_index_of(name, '.');
    if di <= 0 {
        None
    } else {
        Some(name.skip(di + 1))
    }
}

/// Whether `path` names a file with one of the allowed extensions, compared
/// ASCII-case-insensitively.
pub open spec fn allowed_text_file(path: Seq<char>, exts: Seq<Seq<char>>) -> bool {
    match extension_of(path) {
        None => false,
        Some(e) => exists|i: int| 0 <= i < exts.len() && eq_ignore_ascii_case(exts[i], e),
    }
}

/// A file source rooted at a local path, accepting the given extensions.
pub struct LocalFileSource {
    pub root: String,
    pub allowed_extensions: Vec<String>,
}

impl LocalFileSource {
    /// A source that walks `root` and accepts files whose extension is one
    /// of `allowed_extensions`.
    pub fn new(root: String, allowed_extensions: Vec<String>) -> (r: LocalFileSource)
        ensures
            r.root@ == root@,
            r.allowed_extensions == allowed_extensions,
    {
        LocalFileSource { root, allowed_extensions }
    }

    /// The last position of `c` in `s`, or `None`.
    fn last_index(s: &str, c: char) -> (r: Option<usize>)
        ensures
            match r {
                Some(k) => last_index_of(s@, c) == k as int && k < s@.len(),
                None => last_index_of(s@, c) == -1,
            },
    {
        let n = s.unicode_len();
        let mut k: usize = n;
        proof {
            assert(s@.take(n as int) =~= s@);
        }
        while k > 0
            invariant
                k <= n,
                n == s@.len(),
                last_index_of(s@, c) == last_index_of(s@.take(k as int), c),
            decreases k,
        {
            k = k - 1;
            let ch = s.get_char(k);
            proof {
                assert(s@.take(k as int + 1).last() == s@[k as int]);
                assert(s@.take(k as int + 1).drop_last() =~= s@.take(k as int));
            }
            if ch == c {
                return Some(k);
            }
        }
        None
    }

    /// Whether the suffix of `path` starting at `from` equals `x`,
    /// ASCII-case-insensitively.
    fn suffix_eq_ignore_case(path: &str, from: usize, x: &str) -> (r: bool)
        requires
            from <= path@.len(),
        ensures
            r == eq_ignore_ascii_case(x@, path@.skip(from as int)),
    {
        let ghost suffix = path@.skip(from as int);
        let n = path.unicode_len();
        let m = x.unicode_len();
        if m != n - from {
            proof {
                assert(x@.map_values(|c: char| ascii_lower(c)).len() == m);
                assert(suffix.map_values(|c: char| ascii_lower(c)).len() == n - from);
            }
            return false;
        }
        let mut k: usize = 0;
        while k < m
            invariant
                k <= m,
                m == x@.len(),
                n == path@.len(),
                m == n - from,
                suffix == path@.skip(from as int),
                forall|t: int| 0 <= t < k ==> ascii_lower(x@[t]) == ascii_lower(suffix[t]),
            decreases m - k,
        {
            let a = x.get_char(k);
            let b = path.get_char(from + k);
            proof {
                assert(suffix[k as int] == path@[from + k as int]);
            }
            let la = if a >= 'A' && a <= 'Z' {
                (((a as u8) + 0x20) as char)
            } else {
                a
            };
            let lb = if b >= 'A' && b <= 'Z' {
                (((b as u8) + 0x20) as char)
            } else {
                b
            };
            if la != lb {
                proof {
                    assert(x@.map_values(|c: char| ascii_lower(c))[k as int] == ascii_lower(
                        x@[k as int],
                    ));
                    assert(suffix.map_values(|c: char| ascii_lower(c))[k as int] == ascii_lower(
                        suffix[k as int],
                    ));
                }
                return false;
            }
            k = k + 1;
        }
        proof {
            assert(x@.map_values(|c: char| ascii_lower(c)) =~= suffix.map_values(
                |c: char| ascii_lower(c),
            ));
        }
        true
    }

    /// Whether `path` names a text file this source accepts: its extension
    /// matches one of the allowed extensions, ASCII-case-insensitively.
    pub fn is_text_file(&self, path: &str) -> (r: bool)
        ensures
            r == allowed_text_file(
                path@,
                self.allowed_extensions@.map_values(|e: String| e@),
            ),
    {
        let n = path.unicode_len();
        let name_start: usize = match Self::last_index(path, '/') {
            Some(k) => k + 1,
            None => 0,
        };
        proof {
            assert(name_start as int == last_index_of(path@, '/') + 1);
            lemma_last_index_bounds(path@, '/');
            lemma_last_index_skip(path@, '.', name_start as int);
        }
        let ghost name = path@.skip(name_start as int);
        match Self::last_index(path, '.') {
            None => {
                proof {
                    assert(last_index_of(name, '.') == -1);
                }
                false
            },
            Some(d) => {
                if d <= name_start {
                    proof {
                        assert(last_index_of(name, '.') <= 0);
                    }
                    false
                } else {
                    let ghost ext = name.skip(last_index_of(name, '.') + 1);
                    proof {
                        assert(last_index_of(name, '.') == d as int - name_start as int);
                        assert(ext =~= path@.skip(d as int + 1));
                        assert(extension_of(path@) == Some(ext));
                    }
                    let ghost evs = self.allowed_extensions@.map_values(|e: String| e@);
                    let mut i: usize = 0;
                    let m = self.allowed_extensions.len();
                    while i < m
                        invariant
                            i <= m,
                            m == self.allowed_extensions@.len(),
                            n == path@.len(),
                            d < n,
                            ext == path@.skip(d as int + 1),
                            extension_of(path@) == Some(ext),
                            evs == self.allowed_extensions@.map_values(|e: String| e@),
                            forall|t: int| 0 <= t < i ==> !eq_ignore_ascii_case(evs[t], ext),
                        decreases m - i,
                    {
                        let candidate = &self.allowed_extensions[i];
                        if Self::suffix_eq_ignore_case(path, d + 1, candidate.as_str()) {
                            proof {
                                assert(evs[i as int] == self.allowed_extensions@[i as int]@);
                                assert(eq_ignore_ascii_case(evs[i as int], ext));
                                assert(allowed_text_file(path@, evs)) by {
                                    assert(eq_ignore_ascii_case(evs[i as int], ext));
                                }
                            }
                            return true;
                        }
                        proof {
                            assert(evs[i as int] == self.allowed_extensions@[i as int]@);
                        }
                        i = i + 1;
                    }
                    false
                }
            },
        }
    }
}

} // verus!
