//! Mapping of change ids and file paths onto the store's row and column names.
//!
//! A column name starts with the depth of its path (the number of slashes it
//! holds), so that a scan over one prefix finds the direct
//! children of a directory only.
use vstd::prelude::*;
use crate::text::{chars_of, push_char, push_chars, push_decimal, string_of};

verus! {

/// `s` without its leading slashes.
pub open spec fn trim_start_slashes(s: Seq<char>) -> Seq<char>
    decreases s.len(),
{
    if s.len() > 0 && s[0] == '/' {
        trim_start_slashes(s.drop_first())
    } else {
        s
    }
}

/// `s` without its trailing slashes.
pub open spec fn trim_end_slashes(s: Seq<char>) -> Seq<char>
    decreases s.len(),
{
    if s.len() > 0 && s.last() == '/' {
        trim_end_slashes(s.drop_last())
    } else {
        s
    }
}

/// `s` without slashes at either end.
pub open spec fn trim_slashes(s: Seq<char>) -> Seq<char> {
    trim_end_slashes(trim_start_slashes(s))
}

/// What comes before the last slash of `s`; empty where `s` holds none.
pub open spec fn before_last_slash(s: Seq<char>) -> Seq<char>
    decreases s.len(),
{
    if s.len() == 0 {
        s
    } else if s.last() == '/' {
        s.drop_last()
    } else {
        before_last_slash(s.drop_last())
    }
}

/// How many slashes `s` holds.
pub open spec fn count_slashes(s: Seq<char>) -> nat
    decreases s.len(),
{
    if s.len() == 0 {
        0
    } else {
        count_slashes(s.drop_last()) + if s.last() == '/' { 1nat } else { 0nat }
    }
}

/// A file name: one leading slash, no trailing slash.
pub open spec fn normal_filename(s: Seq<char>) -> Seq<char> {
    seq!['/'] + trim_slashes(s)
}

/// A directory name: one leading and one trailing slash (the root is `/`).
pub open spec fn normal_directory(s: Seq<char>) -> Seq<char> {
    if trim_slashes(s).len() == 0 {
        seq!['/']
    } else {
        seq!['/'] + trim_slashes(s) + seq!['/']
    }
}

/// The directory holding `s`, as a file name; the root for a top-level entry.
pub open spec fn parent_of(s: Seq<char>) -> Seq<char> {
    seq!['/'] + before_last_slash(trim_slashes(s))
}

/// The column name of a path: its depth (the number of slashes it holds), a
/// colon, and the path.
pub open spec fn colname_of(path: Seq<char>) -> Seq<char> {
    crate::text::decimal(count_slashes(path)) + seq![':'] + path
}

/// The row that holds the files of change `id`.
pub open spec fn rowname_of(id: u64) -> Seq<char> {
    seq!['c', 'h', 'a', 'n', 'g', 'e', 's', '/'] + crate::text::decimal(id as nat)
}

proof fn lemma_trim_start_from(s: Seq<char>, i: int)
    requires
        0 <= i <= s.len(),
        forall|k: int| 0 <= k < i ==> s[k] == '/',
    ensures
        trim_start_slashes(s) == trim_start_slashes(s.subrange(i, s.len() as int)),
    decreases i,
{
    if i > 0 {
        lemma_trim_start_from(s.drop_first(), i - 1);
        assert(s.drop_first().subrange(i - 1, s.len() - 1) =~= s.subrange(i, s.len() as int));
    } else {
        assert(s.subrange(0, s.len() as int) =~= s);
    }
}

proof fn lemma_trim_end_to(s: Seq<char>, j: int)
    requires
        0 <= j <= s.len(),
        forall|k: int| j <= k < s.len() ==> s[k] == '/',
    ensures
        trim_end_slashes(s) == trim_end_slashes(s.subrange(0, j)),
    decreases s.len() - j,
{
    if j < s.len() {
        lemma_trim_end_to(s.drop_last(), j);
        assert(s.drop_last().subrange(0, j) =~= s.subrange(0, j));
    } else {
        assert(s.subrange(0, j) =~= s);
    }
}

proof fn lemma_before_last_from(s: Seq<char>, j: int)
    requires
        0 <= j <= s.len(),
        forall|k: int| j <= k < s.len() ==> s[k] != '/',
    ensures
        before_last_slash(s) == before_last_slash(s.subrange(0, j)),
    decreases s.len() - j,
{
    if j < s.len() {
        lemma_before_last_from(s.drop_last(), j);
        assert(s.drop_last().subrange(0, j) =~= s.subrange(0, j));
    } else {
        assert(s.subrange(0, j) =~= s);
    }
}

proof fn lemma_count_prefix(s: Seq<char>, i: int)
    requires
        0 <= i < s.len(),
    ensures
        count_slashes(s.subrange(0, i + 1)) == count_slashes(s.subrange(0, i)) + if s[i] == '/' {
            1nat
        } else {
            0nat
        },
{
    assert(s.subrange(0, i + 1).drop_last() =~= s.subrange(0, i));
}

proof fn lemma_trim_start_len(s: Seq<char>)
    ensures
        trim_start_slashes(s).len() <= s.len(),
    decreases s.len(),
{
    if s.len() > 0 && s[0] == '/' {
        lemma_trim_start_len(s.drop_first());
    }
}

proof fn lemma_trim_end_len(s: Seq<char>)
    ensures
        trim_end_slashes(s).len() <= s.len(),
    decreases s.len(),
{
    if s.len() > 0 && s.last() == '/' {
        lemma_trim_end_len(s.drop_last());
    }
}

proof fn lemma_before_last_len(s: Seq<char>)
    ensures
        s.len() > 0 ==> before_last_slash(s).len() < s.len(),
        s.len() == 0 ==> before_last_slash(s).len() == 0,
    decreases s.len(),
{
    if s.len() > 0 && s.last() != '/' {
        lemma_before_last_len(s.drop_last());
    }
}

/// The parent of a path that starts with a slash and is not the root is
/// shorter than the path.
pub proof fn lemma_parent_shorter(d: Seq<char>)
    requires
        d.len() > 1,
        d[0] == '/',
    ensures
        parent_of(d).len() < d.len(),
        parent_of(d).len() >= 1,
        parent_of(d)[0] == '/',
{
    lemma_trim_start_len(d.drop_first());
    let t = trim_start_slashes(d);
    lemma_trim_end_len(t);
    lemma_before_last_len(trim_slashes(d));
}

/// Different paths have different column names.
pub proof fn lemma_colname_injective(a: Seq<char>, b: Seq<char>)
    requires
        colname_of(a) == colname_of(b),
    ensures
        a == b,
{
    let da = crate::text::decimal(count_slashes(a));
    let db = crate::text::decimal(count_slashes(b));
    crate::text::lemma_decimal_digits(count_slashes(a));
    crate::text::lemma_decimal_digits(count_slashes(b));
    let ca = colname_of(a);
    if da.len() < db.len() {
        assert(ca[da.len() as int] == ':');
        assert(colname_of(b)[da.len() as int] == db[da.len() as int]);
    } else if db.len() < da.len() {
        assert(colname_of(b)[db.len() as int] == ':');
        assert(ca[db.len() as int] == da[db.len() as int]);
    } else {
        assert(ca.subrange((da.len() + 1) as int, ca.len() as int) =~= a);
        assert(colname_of(b).subrange((db.len() + 1) as int, colname_of(b).len() as int) =~= b);
    }
}

/// The bounds of `s` once slashes are taken off both ends.
fn trimmed_bounds(s: &Vec<char>) -> (r: (usize, usize))
    ensures
        r.0 <= r.1 <= s@.len(),
        trim_slashes(s@) == s@.subrange(r.0 as int, r.1 as int),
{
    let mut i: usize = 0;
    while i < s.len() && s[i] == '/'
        invariant
            i <= s@.len(),
            forall|k: int| 0 <= k < i ==> s@[k] == '/',
        decreases s@.len() - i,
    {
        i = i + 1;
    }
    proof {
        lemma_trim_start_from(s@, i as int);
    }
    let ghost rest = s@.subrange(i as int, s@.len() as int);
    assert(trim_start_slashes(rest) == rest);
    let mut j: usize = s.len();
    while j > i && s[j - 1] == '/'
        invariant
            i <= j <= s@.len(),
            forall|k: int| j <= k < s@.len() ==> s@[k] == '/',
        decreases j,
    {
        j = j - 1;
    }
    proof {
        lemma_trim_end_to(rest, j - i);
        assert(rest.subrange(0, j - i) =~= s@.subrange(i as int, j as int));
        if j > i {
            assert(trim_end_slashes(s@.subrange(i as int, j as int)) == s@.subrange(i as int, j as int));
        }
    }
    (i, j)
}

/// `filename` with exactly one leading slash and no trailing slash.
pub fn normalize_filename(filename: &str) -> (r: String)
    ensures
        r@ == normal_filename(filename@),
{
    let s = chars_of(filename);
    let (lo, hi) = trimmed_bounds(&s);
    let mut r = String::new();
    push_char(&mut r, '/');
    let mut k: usize = lo;
    while k < hi
        invariant
            lo <= k <= hi <= s@.len(),
            r@ == seq!['/'] + s@.subrange(lo as int, k as int),
        decreases hi - k,
    {
        push_char(&mut r, s[k]);
        k = k + 1;
        assert(r@ =~= seq!['/'] + s@.subrange(lo as int, k as int));
    }
    r
}

/// `directory` with exactly one leading and one trailing slash.
pub fn normalize_directory(directory: &str) -> (r: String)
    ensures
        r@ == normal_directory(directory@),
{
    let s = chars_of(directory);
    let (lo, hi) = trimmed_bounds(&s);
    let mut r = String::new();
    push_char(&mut r, '/');
    let mut k: usize = lo;
    while k < hi
        invariant
            lo <= k <= hi <= s@.len(),
            r@ == seq!['/'] + s@.subrange(lo as int, k as int),
        decreases hi - k,
    {
        push_char(&mut r, s[k]);
        k = k + 1;
        assert(r@ =~= seq!['/'] + s@.subrange(lo as int, k as int));
    }
    if lo < hi {
        push_char(&mut r, '/');
    } else {
        assert(r@ =~= seq!['/']);
    }
    r
}

/// The directory that holds `filename`, as a file name (`/` at the top).
pub fn parent_directory(filename: &str) -> (r: String)
    ensures
        r@ == parent_of(filename@),
{
    let s = chars_of(filename);
    let (lo, hi) = trimmed_bounds(&s);
    let ghost t = s@.subrange(lo as int, hi as int);
    let mut j: usize = hi;
    while j > lo && s[j - 1] != '/'
        invariant
            lo <= j <= hi <= s@.len(),
            t == s@.subrange(lo as int, hi as int),
            forall|k: int| j - lo <= k < t.len() ==> t[k] != '/',
        decreases j,
    {
        j = j - 1;
    }
    proof {
        lemma_before_last_from(t, j - lo);
        assert(t.subrange(0, j - lo) =~= s@.subrange(lo as int, j as int));
    }
    let ghost u = s@.subrange(lo as int, j as int);
    let mut r = String::new();
    push_char(&mut r, '/');
    if j > lo {
        assert(u.last() == '/');
        assert(before_last_slash(u) == u.drop_last());
        let mut k: usize = lo;
        while k < j - 1
            invariant
                lo <= k <= j - 1,
                j <= s@.len(),
                r@ == seq!['/'] + s@.subrange(lo as int, k as int),
            decreases j - 1 - k,
        {
            push_char(&mut r, s[k]);
            k = k + 1;
            assert(r@ =~= seq!['/'] + s@.subrange(lo as int, k as int));
        }
        assert(u.drop_last() =~= s@.subrange(lo as int, j - 1));
    } else {
        assert(u.len() == 0);
        assert(r@ =~= seq!['/'] + before_last_slash(u));
    }
    r
}

/// The store column for `path`: its depth, a colon, and the path itself.
pub fn path_to_colname(path: &str) -> (r: String)
    ensures
        r@ == colname_of(path@),
{
    let s = chars_of(path);
    let mut n: u128 = 0;
    let mut i: usize = 0;
    while i < s.len()
        invariant
            i <= s@.len(),
            n == count_slashes(s@.subrange(0, i as int)),
            n <= i,
        decreases s@.len() - i,
    {
        proof {
            lemma_count_prefix(s@, i as int);
        }
        if s[i] == '/' {
            n = n + 1;
        }
        i = i + 1;
    }
    assert(s@.subrange(0, s@.len() as int) =~= s@);
    let mut r = String::new();
    push_decimal(&mut r, n);
    push_char(&mut r, ':');
    push_chars(&mut r, &s);
    assert(Seq::<char>::empty() + crate::text::decimal(n as nat) == crate::text::decimal(n as nat));
    r
}

/// The store row that holds the files of change `id`.
pub fn change_to_rowname(id: u64) -> (r: String)
    ensures
        r@ == rowname_of(id),
{
    let prefix = chars_of("changes/");
    proof {
        reveal_strlit("changes/");
    }
    let mut r = string_of(&prefix);
    push_decimal(&mut r, id as u128);
    assert(r@ =~= rowname_of(id));
    r
}

} // verus!
