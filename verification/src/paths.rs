//! A plain model of Unix-style filesystem paths.
//!
//! A path is held as a string of characters in which `/` separates the
//! components.  The model pins down the two operations the pipeline needs:
//! taking the parent directory of a path and appending one component to a
//! directory.  Both are defined over the character sequence alone, so the
//! executable code can be proved against them exactly.

use vstd::prelude::*;

verus! {

use vstd::string::StrSliceExecFns;
use vstd::string::StringExecFns;
use crate::error::ShellError;

/// The index of the last `/` in `p`, or `-1` when `p` has none.
pub open spec fn last_slash(p: Seq<char>) -> int
    decreases p.len(),
{
    if p.len() == 0 {
        -1
    } else if p.last() == '/' {
        p.len() - 1
    } else {
        last_slash(p.drop_last())
    }
}

/// The parent directory of `p`: everything before the last separator.
///
/// The empty path and the root `/` have no parent.  A single relative
/// component such as `app` has the empty path as its parent, and a path
/// directly under the root keeps the root itself, so `/app` yields `/`.
pub open spec fn parent_of(p: Seq<char>) -> Option<Seq<char>> {
    let j = last_slash(p);
    if p.len() == 0 {
        None
    } else if j == -1 {
        Some(Seq::empty())
    } else if j == 0 {
        if p.len() == 1 {
            None
        } else {
            Some("/"@)
        }
    } else {
        Some(p.subrange(0, j))
    }
}

/// The path of `name` inside the directory `dir`: a separator is put
/// between them unless `dir` is empty or already ends with one.
pub open spec fn join_path(dir: Seq<char>, name: Seq<char>) -> Seq<char> {
    if dir.len() == 0 {
        name
    } else if dir.last() == '/' {
        dir + name
    } else {
        dir + "/"@ + name
    }
}

/// The fixed name of the entry file the locator searches for.
pub open spec fn index_file() -> Seq<char> {
    "index.html"@
}

/// Whether `p` is absolute: on this model, whether it starts at the root.
pub open spec fn is_absolute(p: Seq<char>) -> bool {
    p.len() > 0 && p[0] == '/'
}

/// A string that can stand as a single path component: non-empty and
/// free of separators.
pub open spec fn plain_name(n: Seq<char>) -> bool {
    n.len() > 0 && forall|k: int| 0 <= k < n.len() ==> n[k] != '/'
}

/// A directory string in normal form: empty, the root alone, or a path
/// without a trailing separator.
pub open spec fn normal_dir(d: Seq<char>) -> bool {
    d.len() == 0 || (d.len() == 1 && d[0] == '/') || d.last() != '/'
}

/// Where the last separator of `p` sits: before it nothing is said, at it
/// there is a separator, and after it there is none.
pub proof fn lemma_last_slash(p: Seq<char>)
    ensures
        -1 <= last_slash(p) < p.len(),
        last_slash(p) >= 0 ==> p[last_slash(p)] == '/',
        forall|k: int| last_slash(p) < k < p.len() ==> p[k] != '/',
    decreases p.len(),
{
    if p.len() == 0 {
    } else if p.last() == '/' {
    } else {
        lemma_last_slash(p.drop_last());
        assert forall|k: int| last_slash(p) < k < p.len() implies p[k] != '/' by {
            if k < p.len() - 1 {
                assert(p.drop_last()[k] != '/');
            }
        }
    }
}

/// A position holding a separator with none after it is the last separator.
pub proof fn lemma_last_slash_at(p: Seq<char>, j: int)
    requires
        0 <= j < p.len(),
        p[j] == '/',
        forall|k: int| j < k < p.len() ==> p[k] != '/',
    ensures
        last_slash(p) == j,
{
    lemma_last_slash(p);
    let j2 = last_slash(p);
    if j2 < j {
        assert(p[j] != '/');
    } else if j2 > j {
        assert(p[j2] == '/');
    }
}

/// Appending one component and taking the parent are inverse to one
/// another, and appending grows the path.
pub proof fn lemma_parent_of_join(dir: Seq<char>, name: Seq<char>)
    requires
        normal_dir(dir),
        plain_name(name),
    ensures
        parent_of(join_path(dir, name)) == Some(dir),
        normal_dir(join_path(dir, name)),
        join_path(dir, name).len() >= dir.len() + name.len(),
        join_path(dir, name).len() > 0,
        join_path(dir, name).last() != '/',
{
    reveal_strlit("/");
    let p = join_path(dir, name);
    if dir.len() == 0 {
        assert(p == name);
        lemma_last_slash(p);
        if last_slash(p) >= 0 {
            assert(p[last_slash(p)] == '/');
        }
        assert(last_slash(p) == -1);
        assert(parent_of(p) == Some(Seq::<char>::empty()));
        assert(Seq::<char>::empty() =~= dir);
    } else if dir.len() == 1 && dir[0] == '/' {
        assert(dir.last() == '/');
        assert(p == dir + name);
        assert(p[0] == '/');
        assert forall|k: int| 0 < k < p.len() implies p[k] != '/' by {
            assert(p[k] == name[k - 1]);
        }
        lemma_last_slash_at(p, 0);
        assert(p.len() > 1);
        assert(parent_of(p) == Some("/"@));
        assert("/"@ =~= dir);
    } else {
        assert(dir.last() != '/');
        assert(p == dir + "/"@ + name);
        let j = dir.len() as int;
        assert(p[j] == '/');
        assert forall|k: int| j < k < p.len() implies p[k] != '/' by {
            assert(p[k] == name[k - j - 1]);
        }
        lemma_last_slash_at(p, j);
        assert(parent_of(p) == Some(p.subrange(0, j)));
        assert(p.subrange(0, j) =~= dir);
    }
    assert(p.last() == name.last());
}

/// The directory reached from `dir` by entering the components of
/// `names` in order.
pub open spec fn descend(dir: Seq<char>, names: Seq<Seq<char>>) -> Seq<char>
    decreases names.len(),
{
    if names.len() == 0 {
        dir
    } else {
        join_path(descend(dir, names.drop_last()), names.last())
    }
}

/// Entering components keeps a directory in normal form, grows it by at
/// least one character per component, and is undone by taking parents.
pub proof fn lemma_descend(dir: Seq<char>, names: Seq<Seq<char>>)
    requires
        normal_dir(dir),
        forall|i: int| 0 <= i < names.len() ==> plain_name(#[trigger] names[i]),
    ensures
        normal_dir(descend(dir, names)),
        descend(dir, names).len() >= dir.len() + names.len(),
        names.len() > 0 ==> parent_of(descend(dir, names)) == Some(
            descend(dir, names.drop_last()),
        ),
        names.len() > 0 ==> descend(dir, names).len() > 0 && descend(dir, names).last() != '/',
    decreases names.len(),
{
    if names.len() > 0 {
        let prefix = names.drop_last();
        assert forall|i: int| 0 <= i < prefix.len() implies plain_name(#[trigger] prefix[i]) by {
            assert(prefix[i] == names[i]);
        }
        lemma_descend(dir, prefix);
        assert(plain_name(names.last()));
        lemma_parent_of_join(descend(dir, prefix), names.last());
    }
}

/// Takes the parent directory of `path`, or reports that there is none.
///
/// Mirrors [`parent_of`] exactly: `None` comes back only for the paths
/// that the model gives no parent.
pub(crate) fn parent_dir(p: &str) -> (r: Option<String>)
    ensures
        r is Some <==> parent_of(p@) is Some,
        r matches Some(s) ==> parent_of(p@) == Some(s@),
{
    let n = p.unicode_len();
    if n == 0 {
        return None;
    }
    let mut i: usize = n;
    while i > 0 && p.get_char(i - 1) != '/'
        invariant
            i <= n,
            n as int == p@.len(),
            forall|k: int| i <= k < n ==> p@[k] != '/',
        decreases i,
    {
        i = i - 1;
    }
    proof {
        lemma_last_slash(p@);
    }
    if i == 0 {
        proof {
            if last_slash(p@) >= 0 {
                assert(p@[last_slash(p@)] == '/');
            }
            assert(parent_of(p@) == Some(Seq::<char>::empty()));
        }
        let s = String::new();
        proof {
            assert(s@ =~= Seq::<char>::empty());
        }
        Some(s)
    } else {
        let j = i - 1;
        proof {
            lemma_last_slash_at(p@, j as int);
        }
        if j == 0 {
            if n == 1 {
                None
            } else {
                Some(String::from_str("/"))
            }
        } else {
            Some(String::from_str(p.substring_char(0, j)))
        }
    }
}

/// The directory containing `path`.
///
/// Fails with [`ShellError::NoParentDirectory`] exactly when the model
/// gives `path` no parent, or only the empty parent (a bare file name):
/// an executable must reside within a directory.
pub fn directory_of(path: &str) -> (r: Result<String, ShellError>)
    ensures
        r matches Ok(d) ==> parent_of(path@) == Some(d@) && d@.len() > 0,
        r is Err <==> (parent_of(path@) is None || (parent_of(path@) matches Some(q)
            && q.len() == 0)),
        r matches Err(e) ==> e == ShellError::NoParentDirectory,
{
    match parent_dir(path) {
        None => Err(ShellError::NoParentDirectory),
        Some(d) => {
            if d.unicode_len() == 0 {
                Err(ShellError::NoParentDirectory)
            } else {
                Ok(d)
            }
        },
    }
}

/// The path of the entry file inside `dir`.
pub(crate) fn join_index(dir: &str) -> (r: String)
    ensures
        r@ == join_path(dir@, index_file()),
{
    let n = dir.unicode_len();
    if n == 0 {
        String::from_str("index.html")
    } else if dir.get_char(n - 1) == '/' {
        let mut s = String::from_str(dir);
        s.append("index.html");
        proof {
            assert(s@ =~= join_path(dir@, index_file()));
        }
        s
    } else {
        let mut s = String::from_str(dir);
        s.append("/");
        s.append("index.html");
        proof {
            assert(s@ =~= join_path(dir@, index_file()));
        }
        s
    }
}

} // verus!
