//! File paths as text.
use vstd::prelude::*;

verus! {

/// `part` appended to `base`: an absolute part replaces the base, a separator is put between
/// the two where the base does not end in one, and an empty base leaves the part.
pub open spec fn joined(base: Seq<char>, part: Seq<char>) -> Seq<char> {
    if part.len() > 0 && part[0] == '/' {
        part
    } else if base.len() == 0 || base.last() == '/' {
        base + part
    } else {
        base + seq!['/'] + part
    }
}

/// Appends a part to a path, the way `std::path::Path::join` does.
pub fn join_path(base: &str, part: &str) -> (r: String)
    ensures
        r@ == joined(base@, part@),
{
    if part.unicode_len() > 0 && part.get_char(0) == '/' {
        return part.to_owned();
    }
    let mut path = base.to_owned();
    let n = base.unicode_len();
    if n > 0 && base.get_char(n - 1) != '/' {
        path.append("/");
        proof {
            reveal_strlit("/");
        }
        assert("/"@ =~= seq!['/']);
    }
    path.append(part);
    path
}

/// Where the last separator of the first `n` characters stands, or -1.
pub open spec fn last_separator(s: Seq<char>, n: int) -> int
    decreases n,
{
    if n <= 0 {
        -1
    } else if s[n - 1] == '/' {
        n - 1
    } else {
        last_separator(s, n - 1)
    }
}

pub proof fn lemma_last_separator(s: Seq<char>, n: int)
    requires
        0 <= n <= s.len(),
    ensures
        -1 <= last_separator(s, n) < n,
        last_separator(s, n) >= 0 ==> s[last_separator(s, n)] == '/',
        forall|i: int| last_separator(s, n) < i < n ==> s[i] != '/',
    decreases n,
{
    if n > 0 && s[n - 1] != '/' {
        lemma_last_separator(s, n - 1);
    }
}

/// The name of the file that the first `n` characters of a path lead to: its last component.
/// Empty components and `.` do not count; there is no name where the last one is `..` or where
/// there is none.
pub open spec fn name_in(s: Seq<char>, n: int) -> Option<Seq<char>>
    decreases n,
    when n <= s.len()
{
    if n <= 0 {
        None
    } else {
        proof {
            lemma_last_separator(s, n);
        }
        let k = last_separator(s, n);
        let last = s.subrange(k + 1, n);
        if last == Seq::<char>::empty() || last == seq!['.'] {
            if k < 0 {
                None
            } else {
                name_in(s, k)
            }
        } else if last == seq!['.', '.'] {
            None
        } else {
            Some(last)
        }
    }
}

/// The last component of a path.
pub open spec fn name_of(path: Seq<char>) -> Option<Seq<char>> {
    name_in(path, path.len() as int)
}

fn find_last_separator(s: &str, n: usize) -> (r: Option<usize>)
    requires
        n <= s@.len(),
    ensures
        match r {
            Some(k) => k == last_separator(s@, n as int),
            None => last_separator(s@, n as int) == -1,
        },
{
    let mut i: usize = n;
    while i > 0
        invariant
            i <= n <= s@.len(),
            last_separator(s@, n as int) == last_separator(s@, i as int),
        decreases i,
    {
        if s.get_char(i - 1) == '/' {
            return Some(i - 1);
        }
        i = i - 1;
    }
    None
}

/// The last component of a path, the way `std::path::Path::file_name` gives it.
pub fn file_name(path: &str) -> (r: Option<String>)
    ensures
        match r {
            Some(name) => name_of(path@) == Some(name@),
            None => name_of(path@) is None,
        },
{
    let mut n = path.unicode_len();
    while n > 0
        invariant
            n <= path@.len(),
            name_of(path@) == name_in(path@, n as int),
        decreases n,
    {
        proof {
            lemma_last_separator(path@, n as int);
        }
        let found = find_last_separator(path, n);
        let start: usize = match found {
            Some(k) => k + 1,
            None => 0,
        };
        let ghost last = path@.subrange(start as int, n as int);
        let len: usize = n - start;
        let dot = len == 1 && path.get_char(start) == '.';
        if len == 0 || dot {
            proof {
                if len == 0 {
                    assert(last =~= Seq::<char>::empty());
                } else {
                    assert(last =~= seq!['.']);
                }
            }
            match found {
                Some(k) => {
                    n = k;
                },
                None => {
                    return None;
                },
            }
        } else {
            let dots = len == 2 && path.get_char(start) == '.' && path.get_char(start + 1) == '.';
            proof {
                assert(last.len() == len);
                if dots {
                    assert(last =~= seq!['.', '.']);
                } else if len == 1 {
                    assert(last[0] == path@[start as int]);
                } else if len == 2 {
                    assert(last[0] == path@[start as int]);
                    assert(last[1] == path@[start + 1]);
                }
            }
            if dots {
                return None;
            }
            return Some(path.substring_char(start, n).to_owned());
        }
    }
    None
}

/// An absolute path without empty components and without `.`, as the kernel resolves it.
pub open spec fn resolved(s: Seq<char>) -> bool {
    &&& s.len() > 0
    &&& s[0] == '/'
    &&& forall|i: int|
        0 <= i < s.len() && s.len() > 1 && #[trigger] s[i] == '/' ==> i + 1 < s.len() && s[i + 1]
            != '/' && !(s[i + 1] == '.' && (i + 2 == s.len() || s[i + 2] == '/'))
}

/// The directory that holds what a resolved path leads to; the root is in none.
pub open spec fn parent_of(s: Seq<char>) -> Option<Seq<char>> {
    let k = last_separator(s, s.len() as int);
    if s.len() <= 1 {
        None
    } else if k == 0 {
        Some(s.take(1))
    } else {
        Some(s.take(k))
    }
}

/// The directory that holds what a resolved path leads to, the way `std::path::Path::parent`
/// gives it.
pub fn parent(path: &str) -> (r: Option<String>)
    requires
        resolved(path@),
    ensures
        match r {
            Some(dir) => parent_of(path@) == Some(dir@) && resolved(dir@) && dir@.len()
                < path@.len(),
            None => parent_of(path@) is None,
        },
{
    let n = path.unicode_len();
    if n <= 1 {
        return None;
    }
    proof {
        lemma_parent_is_resolved(path@);
        lemma_last_separator(path@, n as int);
    }
    match find_last_separator(path, n) {
        Some(k) => {
            let end: usize = if k == 0 {
                1
            } else {
                k
            };
            assert(path@.subrange(0, end as int) =~= path@.take(end as int));
            Some(path.substring_char(0, end).to_owned())
        },
        None => None,
    }
}

/// Walking up from a resolved path stays on resolved paths and comes to an end.
pub proof fn lemma_parent_is_resolved(s: Seq<char>)
    requires
        resolved(s),
    ensures
        parent_of(s) matches Some(dir) ==> resolved(dir) && dir.len() < s.len(),
        s.len() > 1 ==> parent_of(s) is Some && last_separator(s, s.len() as int) >= 0,
{
    lemma_last_separator(s, s.len() as int);
    let k = last_separator(s, s.len() as int);
    if s.len() > 1 {
        assert(s[0] == '/');
        assert(k >= 0);
        let dir = parent_of(s)->0;
        if k > 0 {
            assert forall|i: int| 0 <= i < dir.len() && dir.len() > 1 && #[trigger] dir[i]
                == '/' implies i + 1 < dir.len() && dir[i + 1] != '/' && !(dir[i + 1] == '.' && (i
                + 2 == dir.len() || dir[i + 2] == '/')) by {
                assert(s[i] == '/');
                if i + 1 == k {
                    assert(s[i + 1] != '/');
                }
                if i + 2 == k {
                    assert(s[i + 2] == '/');
                }
            }
            if dir.len() == 1 {
                // a single character before the last separator would be an empty component
                assert(s[0] == '/' && s[1] == '/');
            }
        }
    }
}

} // verus!
