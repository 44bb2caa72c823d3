//! Orders on names and the stable sort the library sorts with.
use vstd::prelude::*;
use crate::paths::{file_name, file_name_of};

verus! {

/// `a <= b` in the order of their characters' code points, a prefix first:
/// the order of `str` and, on UTF-8 text, of `OsStr`.
pub open spec fn text_le(a: Seq<char>, b: Seq<char>) -> bool
    decreases a.len(),
{
    if a.len() == 0 {
        true
    } else if b.len() == 0 {
        false
    } else if a[0] != b[0] {
        a[0] < b[0]
    } else {
        text_le(a.drop_first(), b.drop_first())
    }
}

/// The order of `Option<OsString>` file names: no name first.
pub open spec fn name_key_le(a: Option<Seq<char>>, b: Option<Seq<char>>) -> bool {
    match a {
        None => true,
        Some(x) => match b {
            None => false,
            Some(y) => text_le(x, y),
        },
    }
}

/// Paths ordered by their file names.
pub open spec fn path_name_le() -> spec_fn(Seq<char>, Seq<char>) -> bool {
    |a: Seq<char>, b: Seq<char>| name_key_le(file_name_of(a), file_name_of(b))
}

/// `x` placed into `s` after every element that is not after it in `le`.
pub open spec fn insert_by<T>(s: Seq<T>, x: T, le: spec_fn(T, T) -> bool) -> Seq<T>
    decreases s.len(),
{
    if s.len() == 0 {
        seq![x]
    } else if le(s.last(), x) {
        s.push(x)
    } else {
        insert_by(s.drop_last(), x, le).push(s.last())
    }
}

/// The stable sort of `s` by `le`: the elements in order, equal ones in the
/// order they came in.
pub open spec fn sort_by<T>(s: Seq<T>, le: spec_fn(T, T) -> bool) -> Seq<T>
    decreases s.len(),
{
    if s.len() == 0 {
        s
    } else {
        insert_by(sort_by(s.drop_last(), le), s.last(), le)
    }
}

/// The text of each string.
pub open spec fn string_views(v: Seq<String>) -> Seq<Seq<char>> {
    v.map_values(|s: String| s@)
}

/// The view of an optional name.
pub open spec fn key_view(k: Option<Vec<char>>) -> Option<Seq<char>> {
    match k {
        Some(v) => Some(v@),
        None => None,
    }
}

pub fn text_le_chars(a: &[char], b: &[char]) -> (r: bool)
    ensures
        r == text_le(a@, b@),
{
    let mut i: usize = 0;
    assert(a@.skip(0) =~= a@);
    assert(b@.skip(0) =~= b@);
    while i < a.len() && i < b.len() && a[i] == b[i]
        invariant
            i <= a.len(),
            i <= b.len(),
            text_le(a@, b@) == text_le(a@.skip(i as int), b@.skip(i as int)),
        decreases a.len() - i,
    {
        assert(a@.skip(i as int).drop_first() =~= a@.skip(i + 1));
        assert(b@.skip(i as int).drop_first() =~= b@.skip(i + 1));
        i = i + 1;
    }
    if i == a.len() {
        true
    } else if i == b.len() {
        false
    } else {
        a[i] < b[i]
    }
}

fn name_key_le_of(a: &Option<Vec<char>>, b: &Option<Vec<char>>) -> (r: bool)
    ensures
        r == name_key_le(key_view(*a), key_view(*b)),
{
    match a {
        None => true,
        Some(x) => match b {
            None => false,
            Some(y) => text_le_chars(x.as_slice(), y.as_slice()),
        },
    }
}

/// Where the stable insertion puts `x`: after the last element not after it.
pub proof fn lemma_insert_by_split<T>(s: Seq<T>, x: T, le: spec_fn(T, T) -> bool, j: int)
    requires
        0 <= j <= s.len(),
        forall|k: int| j <= k < s.len() ==> !le(#[trigger] s[k], x),
        j > 0 ==> le(s[j - 1], x),
    ensures
        insert_by(s, x, le) == s.insert(j, x),
    decreases s.len(),
{
    if s.len() == 0 {
        assert(s.insert(0, x) =~= seq![x]);
    } else if j == s.len() {
        assert(s.insert(j, x) =~= s.push(x));
    } else {
        assert(!le(s[s.len() - 1], x));
        lemma_insert_by_split(s.drop_last(), x, le, j);
        assert(s.insert(j, x) =~= s.drop_last().insert(j, x).push(s.last()));
    }
}

/// `paths` in the order of their file names (stable).
pub fn sort_by_file_name(paths: &Vec<String>) -> (r: Vec<String>)
    ensures
        string_views(r@) == sort_by(string_views(paths@), path_name_le()),
{
    let ghost le = path_name_le();
    let ghost input = string_views(paths@);
    let mut out: Vec<String> = Vec::new();
    let mut keys: Vec<Option<Vec<char>>> = Vec::new();
    let mut i: usize = 0;
    while i < paths.len()
        invariant
            i <= paths.len(),
            le == path_name_le(),
            input == string_views(paths@),
            string_views(out@) == sort_by(input.take(i as int), le),
            keys.len() == out.len(),
            forall|k: int| 0 <= k < keys.len() ==> key_view(#[trigger] keys@[k]) == file_name_of(out@[k]@),
        decreases paths.len() - i,
    {
        let p = paths[i].clone();
        let key = file_name(p.as_str());
        let ghost sorted = string_views(out@);
        assert(input.take(i + 1).drop_last() =~= input.take(i as int));
        assert(input.take(i + 1).last() == p@);
        let mut j: usize = out.len();
        while j > 0 && !name_key_le_of(&keys[j - 1], &key)
            invariant
                j <= out.len(),
                keys.len() == out.len(),
                sorted == string_views(out@),
                le == path_name_le(),
                forall|k: int| 0 <= k < keys.len() ==> key_view(#[trigger] keys@[k]) == file_name_of(out@[k]@),
                key_view(key) == file_name_of(p@),
                forall|k: int| j <= k < sorted.len() ==> !le(#[trigger] sorted[k], p@),
            decreases j,
        {
            assert(key_view(keys@[j - 1]) == file_name_of(sorted[j - 1]));
            j = j - 1;
        }
        if j > 0 {
            assert(key_view(keys@[j - 1]) == file_name_of(sorted[j - 1]));
        }
        proof {
            lemma_insert_by_split(sorted, p@, le, j as int);
        }
        let ghost keys_before = keys@;
        let ghost out_before = out@;
        out.insert(j, p);
        keys.insert(j, key);
        assert(string_views(out@) =~= sorted.insert(j as int, input[i as int]));
        assert forall|k: int| 0 <= k < keys.len() implies key_view(#[trigger] keys@[k]) == file_name_of(out@[k]@) by {
            if k < j {
                assert(keys@[k] == keys_before[k]);
                assert(out@[k] == out_before[k]);
            } else if k > j {
                assert(keys@[k] == keys_before[k - 1]);
                assert(out@[k] == out_before[k - 1]);
            }
        }
        i = i + 1;
    }
    assert(input.take(paths.len() as int) =~= input);
    out
}

// ---------------------------------------------------------------------------
// Laws
// ---------------------------------------------------------------------------

/// Every pair of positions in order in `t` is in order in `le`.
pub open spec fn is_sorted_by<T>(t: Seq<T>, le: spec_fn(T, T) -> bool) -> bool {
    forall|i: int, j: int| 0 <= i < j < t.len() ==> le(#[trigger] t[i], #[trigger] t[j])
}

/// `le` orders any two elements, transitively.
pub open spec fn is_total_preorder<T>(le: spec_fn(T, T) -> bool) -> bool {
    &&& forall|a: T, b: T| #[trigger] le(a, b) || le(b, a)
    &&& forall|a: T, b: T, c: T| #[trigger] le(a, b) && #[trigger] le(b, c) ==> le(a, c)
}

proof fn lemma_insert_by_multiset<T>(s: Seq<T>, x: T, le: spec_fn(T, T) -> bool)
    ensures
        insert_by(s, x, le).to_multiset() == s.to_multiset().insert(x),
    decreases s.len(),
{
    broadcast use vstd::seq_lib::group_to_multiset_ensures;

    if s.len() == 0 {
        assert(seq![x] =~= s.push(x));
    } else if le(s.last(), x) {
    } else {
        lemma_insert_by_multiset(s.drop_last(), x, le);
        assert(s =~= s.drop_last().push(s.last()));
        assert(s.to_multiset() == s.drop_last().to_multiset().insert(s.last()));
        assert(insert_by(s, x, le).to_multiset() =~= s.drop_last().to_multiset().insert(x).insert(
            s.last(),
        ));
    }
}

/// Sorting keeps every element, as often as it occurs.
pub proof fn lemma_sort_by_permutes<T>(s: Seq<T>, le: spec_fn(T, T) -> bool)
    ensures
        sort_by(s, le).to_multiset() == s.to_multiset(),
        sort_by(s, le).len() == s.len(),
    decreases s.len(),
{
    broadcast use vstd::seq_lib::group_to_multiset_ensures;

    if s.len() > 0 {
        lemma_sort_by_permutes(s.drop_last(), le);
        lemma_insert_by_multiset(sort_by(s.drop_last(), le), s.last(), le);
        assert(s =~= s.drop_last().push(s.last()));
    }
    vstd::seq_lib::to_multiset_len(sort_by(s, le));
    vstd::seq_lib::to_multiset_len(s);
}

proof fn lemma_insert_by_sorted<T>(s: Seq<T>, x: T, le: spec_fn(T, T) -> bool)
    requires
        is_total_preorder(le),
        is_sorted_by(s, le),
    ensures
        is_sorted_by(insert_by(s, x, le), le),
    decreases s.len(),
{
    broadcast use vstd::seq_lib::group_to_multiset_ensures;

    if s.len() == 0 {
    } else if le(s.last(), x) {
        let t = s.push(x);
        assert forall|i: int, j: int| 0 <= i < j < t.len() implies le(#[trigger] t[i], #[trigger] t[j]) by {
            if j == s.len() {
                if i < s.len() - 1 {
                    assert(le(s[i], s[s.len() - 1]));
                }
            }
        }
    } else {
        let d = s.drop_last();
        let m = s.last();
        assert(is_sorted_by(d, le));
        lemma_insert_by_sorted(d, x, le);
        lemma_insert_by_multiset(d, x, le);
        let u = insert_by(d, x, le);
        assert(le(x, m));
        let t = u.push(m);
        assert forall|i: int, j: int| 0 <= i < j < t.len() implies le(#[trigger] t[i], #[trigger] t[j]) by {
            if j == u.len() {
                let e = u[i];
                assert(u.to_multiset().count(e) > 0);
                if e != x {
                    assert(d.to_multiset().count(e) > 0);
                    assert(d.contains(e));
                    let k = choose|k: int| 0 <= k < d.len() && d[k] == e;
                    assert(le(s[k], s[s.len() - 1]));
                }
            }
        }
    }
}

/// For a total order, the sort yields its elements in order.
pub proof fn lemma_sort_by_sorted<T>(s: Seq<T>, le: spec_fn(T, T) -> bool)
    requires
        is_total_preorder(le),
    ensures
        is_sorted_by(sort_by(s, le), le),
    decreases s.len(),
{
    if s.len() > 0 {
        lemma_sort_by_sorted(s.drop_last(), le);
        lemma_insert_by_sorted(sort_by(s.drop_last(), le), s.last(), le);
    }
}

proof fn lemma_text_le_total(a: Seq<char>, b: Seq<char>)
    ensures
        text_le(a, b) || text_le(b, a),
    decreases a.len(),
{
    if a.len() > 0 && b.len() > 0 && a[0] == b[0] {
        lemma_text_le_total(a.drop_first(), b.drop_first());
    }
}

proof fn lemma_text_le_transitive(a: Seq<char>, b: Seq<char>, c: Seq<char>)
    requires
        text_le(a, b),
        text_le(b, c),
    ensures
        text_le(a, c),
    decreases a.len(),
{
    if a.len() > 0 && b.len() > 0 && c.len() > 0 && a[0] == b[0] && b[0] == c[0] {
        lemma_text_le_transitive(a.drop_first(), b.drop_first(), c.drop_first());
    }
}

/// File names are ordered totally: the sort by file name puts every path in
/// order.
pub proof fn lemma_path_name_order_is_total()
    ensures
        is_total_preorder(path_name_le()),
{
    let le = path_name_le();
    assert forall|a: Seq<char>, b: Seq<char>| #[trigger] le(a, b) || le(b, a) by {
        if let Some(x) = file_name_of(a) {
            if let Some(y) = file_name_of(b) {
                lemma_text_le_total(x, y);
            }
        }
    }
    assert forall|a: Seq<char>, b: Seq<char>, c: Seq<char>| #[trigger] le(a, b) && #[trigger] le(
        b,
        c,
    ) implies le(a, c) by {
        if let Some(x) = file_name_of(a) {
            if let Some(y) = file_name_of(b) {
                if let Some(z) = file_name_of(c) {
                    lemma_text_le_transitive(x, y, z);
                }
            }
        }
    }
}

/// Paths sorted by file name come out in file-name order, each path kept as
/// often as it was given.
pub proof fn lemma_sort_by_file_name_orders(paths: Seq<Seq<char>>)
    ensures
        is_sorted_by(sort_by(paths, path_name_le()), path_name_le()),
        sort_by(paths, path_name_le()).to_multiset() == paths.to_multiset(),
{
    lemma_path_name_order_is_total();
    lemma_sort_by_sorted(paths, path_name_le());
    lemma_sort_by_permutes(paths, path_name_le());
}

} // verus!
