use vstd::prelude::*;
use vstd::string::StrSliceExecFns;

verus! {

/// Where a model snapshot lives.
pub enum Location {
    /// A path on the local file system.
    Local(String),
    /// An object in a bucket of an object store.
    Object { bucket: String, key: String },
}

pub open spec fn object_scheme() -> Seq<char> {
    seq!['s', '3', ':', '/', '/']
}

pub open spec fn file_scheme() -> Seq<char> {
    seq!['f', 'i', 'l', 'e', ':', '/', '/']
}

pub open spec fn has_prefix(s: Seq<char>, p: Seq<char>) -> bool {
    p.len() <= s.len() && s.subrange(0, p.len() as int) == p
}

/// The index of the first `/` in `s`, if any.
pub open spec fn first_slash(s: Seq<char>) -> Option<int> {
    if exists|i: int| 0 <= i < s.len() && s[i] == '/' {
        Some(choose|i: int| 0 <= i < s.len() && s[i] == '/' && forall|j: int| 0 <= j < i ==> s[j] != '/')
    } else {
        None
    }
}

/// The bucket and key of `rest`, the part of an object path after its
/// scheme: the bucket runs to the first `/`, the key is all after it.
pub open spec fn split_object(rest: Seq<char>) -> (Seq<char>, Seq<char>) {
    match first_slash(rest) {
        Some(i) => (rest.subrange(0, i), rest.subrange(i + 1, rest.len() as int)),
        None => (rest, Seq::empty()),
    }
}

fn starts_with_chars(s: &str, n: usize, p: &str) -> (r: bool)
    requires
        n == s@.len(),
    ensures
        r == has_prefix(s@, p@),
{
    let m = p.unicode_len();
    if m > n {
        return false;
    }
    let mut i: usize = 0;
    while i < m
        invariant
            m == p@.len(),
            m <= n,
            n == s@.len(),
            i <= m,
            forall|j: int| 0 <= j < i ==> s@[j] == p@[j],
        decreases m - i,
    {
        if s.get_char(i) != p.get_char(i) {
            assert(s@.subrange(0, m as int)[i as int] != p@[i as int]);
            return false;
        }
        i = i + 1;
    }
    assert(s@.subrange(0, m as int) =~= p@);
    true
}

/// The bucket and key of an object path: the scheme (its first five
/// characters) is dropped; the bucket runs to the first `/` after it and
/// the key is everything after that `/`, empty when there is none.
pub fn parse_s3_path(s3_path: &str) -> (r: (String, String))
    requires
        s3_path@.len() >= 5,
    ensures
        (r.0@, r.1@) == split_object(s3_path@.subrange(5, s3_path@.len() as int)),
{
    let n = s3_path.unicode_len();
    let ghost rest = s3_path@.subrange(5, n as int);
    let mut i: usize = 5;
    while i < n
        invariant
            n == s3_path@.len(),
            rest == s3_path@.subrange(5, n as int),
            5 <= i <= n,
            forall|j: int| 5 <= j < i ==> s3_path@[j] != '/',
        decreases n - i,
    {
        if s3_path.get_char(i) == '/' {
            let bucket = s3_path.substring_char(5, i).to_owned();
            let key = s3_path.substring_char(i + 1, n).to_owned();
            proof {
                let k = (i - 5) as int;
                assert(rest[k] == '/');
                assert(forall|j: int| 0 <= j < k ==> rest[j] == s3_path@[j + 5]);
                assert(forall|j: int| 0 <= j < k ==> rest[j] != '/');
                let c = choose|c: int|
                    0 <= c < rest.len() && rest[c] == '/' && forall|j: int| 0 <= j < c ==> rest[j] != '/';
                assert(rest[c] == s3_path@[c + 5]);
                if c < k {
                    assert(s3_path@[c + 5] != '/');
                }
                if k < c {
                    assert(rest[k] != '/');
                }
                assert(bucket@ =~= rest.subrange(0, k));
                assert(key@ =~= rest.subrange(k + 1, rest.len() as int));
            }
            return (bucket, key);
        }
        i = i + 1;
    }
    let bucket = s3_path.substring_char(5, n).to_owned();
    proof {
        assert(bucket@ =~= rest);
        if exists|c: int| 0 <= c < rest.len() && rest[c] == '/' {
            let c = choose|c: int| 0 <= c < rest.len() && rest[c] == '/';
            assert(rest[c] == s3_path@[c + 5]);
        }
    }
    (bucket, String::new())
}

/// Where `path` points: an object path `s3://bucket/key`, a local path
/// with its `file://` scheme dropped, or a bare local path.
pub fn locate(path: &str) -> (r: Location)
    ensures
        has_prefix(path@, object_scheme()) ==> match r {
            Location::Object { bucket, key } => (bucket@, key@) == split_object(
                path@.subrange(5, path@.len() as int),
            ),
            Location::Local(_) => false,
        },
        !has_prefix(path@, object_scheme()) && has_prefix(path@, file_scheme()) ==> match r {
            Location::Local(p) => p@ == path@.subrange(7, path@.len() as int),
            Location::Object { .. } => false,
        },
        !has_prefix(path@, object_scheme()) && !has_prefix(path@, file_scheme()) ==> match r {
            Location::Local(p) => p@ == path@,
            Location::Object { .. } => false,
        },
{
    let n = path.unicode_len();
    let object = "s3://";
    let file = "file://";
    proof {
        reveal_strlit("s3://");
        reveal_strlit("file://");
        assert(object@ =~= object_scheme());
        assert(file@ =~= file_scheme());
    }
    if starts_with_chars(path, n, object) {
        let (bucket, key) = parse_s3_path(path);
        Location::Object { bucket, key }
    } else if starts_with_chars(path, n, file) {
        Location::Local(path.substring_char(7, n).to_owned())
    } else {
        let p = path.to_owned();
        Location::Local(p)
    }
}

} // verus!
