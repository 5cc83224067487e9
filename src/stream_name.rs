//! Stream names of the form `<category>-<id>`.

use vstd::prelude::*;
use vstd::string::StrSliceExecFns;
use vstd::string::StringExecFns;

verus! {

/// Separates the category from the instance id in a stream name.
pub const SEPARATOR: char = '-';

/// A category character: an ASCII letter or digit.
pub open spec fn is_category_char(c: char) -> bool {
    ('a' <= c && c <= 'z') || ('A' <= c && c <= 'Z') || ('0' <= c && c <= '9')
}

pub open spec fn valid_category(c: Seq<char>) -> bool {
    &&& c.len() > 0
    &&& forall|i: int| 0 <= i < c.len() ==> is_category_char(#[trigger] c[i])
}

pub open spec fn valid_id(id: Seq<char>) -> bool {
    &&& id.len() > 0
    &&& forall|i: int| 0 <= i < id.len() ==> #[trigger] id[i] != SEPARATOR
}

/// The stream name of instance `id` in `category`.
pub open spec fn stream_name_of(category: Seq<char>, id: Seq<char>) -> Seq<char> {
    category + seq![SEPARATOR] + id
}

/// `k` is a place where `s` splits into a valid category and a valid id.
pub open spec fn is_split_point(s: Seq<char>, k: int) -> bool {
    &&& 0 <= k < s.len()
    &&& s[k] == SEPARATOR
    &&& valid_category(s.take(k))
    &&& valid_id(s.skip(k + 1))
}

/// The category and id of `s`, or `None` where `s` is no valid stream name.
pub open spec fn split_stream_name(s: Seq<char>) -> Option<(Seq<char>, Seq<char>)> {
    if exists|k: int| is_split_point(s, k) {
        let k = choose|k: int| is_split_point(s, k);
        Some((s.take(k), s.skip(k + 1)))
    } else {
        None
    }
}

pub open spec fn valid_stream_name(s: Seq<char>) -> bool {
    split_stream_name(s) is Some
}

#[derive(Debug, Clone, Copy, PartialEq, Eq)]
pub enum StreamNameError {
    /// The separator is missing, the category is empty or holds a character
    /// other than an ASCII letter or digit, or the id is empty.
    InvalidStreamName,
}

/// A parsed stream name.
#[derive(Debug, Clone)]
pub struct StreamName {
    pub category: String,
    pub id: String,
}

/// A valid stream name splits at exactly one place: just after its category.
proof fn lemma_split_point_unique(category: Seq<char>, id: Seq<char>, k: int)
    requires
        valid_category(category),
        valid_id(id),
        is_split_point(stream_name_of(category, id), k),
    ensures
        k == category.len(),
{
    let s = stream_name_of(category, id);
    if k < category.len() {
        assert(s[k] == category[k]);
    } else if k > category.len() {
        assert(s[k] == id[k - category.len() - 1]);
    }
}

/// Parsing the name formatted from a valid category and id gives them back.
pub proof fn lemma_parse_format(category: Seq<char>, id: Seq<char>)
    requires
        valid_category(category),
        valid_id(id),
    ensures
        split_stream_name(stream_name_of(category, id)) == Some((category, id)),
{
    let s = stream_name_of(category, id);
    let n = category.len() as int;
    assert(s.take(n) =~= category);
    assert(s.skip(n + 1) =~= id);
    assert(is_split_point(s, n));
    let k = choose|k: int| is_split_point(s, k);
    lemma_split_point_unique(category, id, k);
}

/// Formatting the parts of a valid stream name gives the name back.
pub proof fn lemma_format_parse(s: Seq<char>)
    requires
        valid_stream_name(s),
    ensures
        match split_stream_name(s) {
            Some((category, id)) => stream_name_of(category, id) == s,
            None => false,
        },
{
    let k = choose|k: int| is_split_point(s, k);
    assert(stream_name_of(s.take(k), s.skip(k + 1)) =~= s);
}

fn is_category_char_exec(c: char) -> (r: bool)
    ensures
        r == is_category_char(c),
{
    ('a' <= c && c <= 'z') || ('A' <= c && c <= 'Z') || ('0' <= c && c <= '9')
}

/// Splits `s` into its category and id.
pub fn parse(s: &str) -> (r: Result<StreamName, StreamNameError>)
    ensures
        match r {
            Ok(n) => split_stream_name(s@) == Some((n.category@, n.id@)),
            Err(e) => split_stream_name(s@) is None && e == StreamNameError::InvalidStreamName,
        },
{
    let n = s.unicode_len();
    let mut k: usize = 0;
    while k < n && s.get_char(k) != SEPARATOR
        invariant
            n == s@.len(),
            k <= n,
            forall|j: int| 0 <= j < k ==> s@[j] != SEPARATOR,
        decreases n - k,
    {
        k = k + 1;
    }
    // `k` is the first separator, if any
    if k == n || k == 0 || k + 1 == n {
        proof {
            if exists|j: int| is_split_point(s@, j) {
                let j = choose|j: int| is_split_point(s@, j);
                if j < k {
                } else if j > k {
                    assert(s@.take(j)[k as int] == SEPARATOR);
                } else {
                    assert(s@.skip(k + 1).len() == 0);
                }
            }
        }
        return Err(StreamNameError::InvalidStreamName);
    }
    let mut i: usize = 0;
    while i < n
        invariant
            n == s@.len(),
            0 < k < n - 1,
            s@[k as int] == SEPARATOR,
            forall|j: int| 0 <= j < k ==> s@[j] != SEPARATOR,
            i <= n,
            forall|j: int| 0 <= j < i && j < k ==> is_category_char(#[trigger] s@[j]),
            forall|j: int| k < j < i ==> #[trigger] s@[j] != SEPARATOR,
        decreases n - i,
    {
        let c = s.get_char(i);
        if i < k && !is_category_char_exec(c) {
            proof {
                if exists|j: int| is_split_point(s@, j) {
                    let j = choose|j: int| is_split_point(s@, j);
                    if j > k {
                        assert(s@.take(j)[k as int] == SEPARATOR);
                    } else if j < k {
                        assert(s@[j] != SEPARATOR);
                    } else {
                        assert(s@.take(j)[i as int] == c);
                    }
                }
            }
            return Err(StreamNameError::InvalidStreamName);
        }
        if i > k && c == SEPARATOR {
            proof {
                if exists|j: int| is_split_point(s@, j) {
                    let j = choose|j: int| is_split_point(s@, j);
                    if j > k {
                        assert(s@.take(j)[k as int] == SEPARATOR);
                    } else if j < k {
                        assert(s@[j] != SEPARATOR);
                    } else {
                        assert(s@.skip(k + 1)[i - k - 1] == SEPARATOR);
                    }
                }
            }
            return Err(StreamNameError::InvalidStreamName);
        }
        i = i + 1;
    }
    let category = s.substring_char(0, k);
    let id = s.substring_char(k + 1, n);
    proof {
        assert(is_split_point(s@, k as int));
        let j = choose|j: int| is_split_point(s@, j);
        if j < k {
            assert(s@[j] != SEPARATOR);
        } else if j > k {
            assert(s@.take(j)[k as int] == SEPARATOR);
        }
    }
    Ok(StreamName { category: String::from_str(category), id: String::from_str(id) })
}

/// Joins `category` and `id` into a stream name.
pub fn format(category: &str, id: &str) -> (r: Result<String, StreamNameError>)
    ensures
        match r {
            Ok(s) => valid_category(category@) && valid_id(id@) && s@ == stream_name_of(
                category@,
                id@,
            ),
            Err(e) => !(valid_category(category@) && valid_id(id@)) && e
                == StreamNameError::InvalidStreamName,
        },
{
    let n = category.unicode_len();
    if n == 0 {
        return Err(StreamNameError::InvalidStreamName);
    }
    let mut i: usize = 0;
    while i < n
        invariant
            n == category@.len(),
            i <= n,
            forall|j: int| 0 <= j < i ==> is_category_char(#[trigger] category@[j]),
        decreases n - i,
    {
        if !is_category_char_exec(category.get_char(i)) {
            return Err(StreamNameError::InvalidStreamName);
        }
        i = i + 1;
    }
    let m = id.unicode_len();
    if m == 0 {
        return Err(StreamNameError::InvalidStreamName);
    }
    let mut j: usize = 0;
    while j < m
        invariant
            m == id@.len(),
            j <= m,
            forall|t: int| 0 <= t < j ==> #[trigger] id@[t] != SEPARATOR,
        decreases m - j,
    {
        if id.get_char(j) == SEPARATOR {
            return Err(StreamNameError::InvalidStreamName);
        }
        j = j + 1;
    }
    let r = String::from_str(category).concat("-").concat(id);
    proof {
        reveal_strlit("-");
        assert(r@ =~= stream_name_of(category@, id@));
    }
    Ok(r)
}

} // verus!
