//! The stimulus names the environment reports in its status line.
use vstd::prelude::*;

verus! {

/// The names of `s` without repeats, each at its first occurrence, in order.
pub open spec fn distinct_in_order(s: Seq<Seq<char>>) -> Seq<Seq<char>>
    decreases s.len(),
{
    if s.len() == 0 {
        Seq::empty()
    } else {
        let rest = distinct_in_order(s.drop_last());
        if rest.contains(s.last()) {
            rest
        } else {
            rest.push(s.last())
        }
    }
}

/// Deduplication keeps every name once: the result has no repeats and holds
/// exactly the names of `s`.
pub proof fn lemma_distinct_in_order(s: Seq<Seq<char>>)
    ensures
        distinct_in_order(s).no_duplicates(),
        forall|x: Seq<char>| distinct_in_order(s).contains(x) <==> s.contains(x),
    decreases s.len(),
{
    if s.len() > 0 {
        let rest_s = s.drop_last();
        lemma_distinct_in_order(rest_s);
        let rest = distinct_in_order(rest_s);
        let d = distinct_in_order(s);
        assert forall|x: Seq<char>| d.contains(x) <==> s.contains(x) by {
            if s.contains(x) {
                let i: int = choose|i: int| 0 <= i < s.len() && s[i] == x;
                if i < s.len() - 1 {
                    assert(rest_s[i] == x);
                    assert(rest_s.contains(x));
                    assert(rest.contains(x));
                    let j: int = choose|j: int| 0 <= j < rest.len() && rest[j] == x;
                    assert(d[j] == x);
                } else {
                    if rest.contains(x) {
                        let j: int = choose|j: int| 0 <= j < rest.len() && rest[j] == x;
                        assert(d[j] == x);
                    } else {
                        assert(d[rest.len() as int] == x);
                    }
                }
            }
            if d.contains(x) {
                let j: int = choose|j: int| 0 <= j < d.len() && d[j] == x;
                if j < rest.len() {
                    assert(rest[j] == x);
                    assert(rest_s.contains(x));
                    let i: int = choose|i: int| 0 <= i < rest_s.len() && rest_s[i] == x;
                    assert(s[i] == x);
                } else {
                    assert(s[s.len() - 1] == x);
                }
            }
        }
        if !rest.contains(s.last()) {
            assert forall|i: int, j: int| 0 <= i < d.len() && 0 <= j < d.len() && i != j implies d[i]
                != d[j] by {
                if i < rest.len() && j < rest.len() {
                    assert(rest[i] != rest[j]);
                } else if i < rest.len() {
                    assert(rest[i] != s.last());
                } else if j < rest.len() {
                    assert(rest[j] != s.last());
                }
            }
        }
    }
}

/// Where the `j`-th distinct name occurs at `p`, the `i`-th (`i < j`) occurs
/// before `p`; the result is such an earlier position.
proof fn lemma_earlier_occurrence(s: Seq<Seq<char>>, i: int, j: int, p: int) -> (q: int)
    requires
        0 <= i < j < distinct_in_order(s).len(),
        0 <= p < s.len(),
        s[p] == distinct_in_order(s)[j],
    ensures
        0 <= q < p,
        s[q] == distinct_in_order(s)[i],
    decreases s.len(),
{
    let front = s.drop_last();
    lemma_distinct_in_order(front);
    let rest = distinct_in_order(front);
    let d = distinct_in_order(s);
    assert(d[i] == rest[i]);
    assert(rest.contains(rest[i]));
    assert(front.contains(rest[i]));
    if p < s.len() - 1 {
        assert(s[p] == front[p]);
        if j < rest.len() {
            assert(d[j] == rest[j]);
            let q = lemma_earlier_occurrence(front, i, j, p);
            assert(s[q] == front[q]);
            q
        } else {
            assert(d[j] == s.last());
            assert(front.contains(s[p]));
            assert(false);
            0
        }
    } else {
        let q0: int = choose|q0: int| 0 <= q0 < front.len() && front[q0] == rest[i];
        assert(s[q0] == front[q0]);
        q0
    }
}

/// Deduplication keeps the order of first occurrence: of two names of the
/// result, the earlier one first occurs in `s` before the later one does.
pub proof fn lemma_distinct_first_occurrence_order(s: Seq<Seq<char>>)
    ensures
        forall|i: int, j: int|
            0 <= i < j < distinct_in_order(s).len() ==> s.index_of_first(
                #[trigger] distinct_in_order(s)[i],
            )->0 < s.index_of_first(#[trigger] distinct_in_order(s)[j])->0,
{
    let d = distinct_in_order(s);
    lemma_distinct_in_order(s);
    assert forall|i: int, j: int| 0 <= i < j < d.len() implies s.index_of_first(
        #[trigger] d[i],
    )->0 < s.index_of_first(#[trigger] d[j])->0 by {
        assert(d.contains(d[i]) && d.contains(d[j]));
        s.index_of_first_ensures(d[i]);
        s.index_of_first_ensures(d[j]);
        let p = s.index_of_first(d[j])->0;
        let q = lemma_earlier_occurrence(s, i, j, p);
        let f = s.index_of_first(d[i])->0;
        if f >= p {
            assert(s[q] == d[i]);
        }
    }
}

/// The most names a status line lists.
pub const STATUS_NAME_LIMIT: usize = 3;

/// The first three distinct names of `s`, in order of first occurrence.
pub open spec fn status_name_list(s: Seq<Seq<char>>) -> Seq<Seq<char>> {
    let d = distinct_in_order(s);
    if d.len() <= STATUS_NAME_LIMIT {
        d
    } else {
        d.take(STATUS_NAME_LIMIT as int)
    }
}

/// The distinct names of a prefix are a prefix of the distinct names of the
/// whole.
proof fn lemma_distinct_prefix(s: Seq<Seq<char>>, i: int)
    requires
        0 <= i <= s.len(),
    ensures
        distinct_in_order(s.take(i)).len() <= distinct_in_order(s).len(),
        distinct_in_order(s.take(i)) == distinct_in_order(s).take(
            distinct_in_order(s.take(i)).len() as int,
        ),
    decreases s.len() - i,
{
    if i == s.len() {
        assert(s.take(i) =~= s);
    } else {
        lemma_distinct_prefix(s, i + 1);
        let t = s.take(i + 1);
        assert(t.drop_last() =~= s.take(i));
        let d_small = distinct_in_order(s.take(i));
        let d_next = distinct_in_order(t);
        assert(d_small == d_next.take(d_small.len() as int));
    }
}

/// A status line lists at most three names, none twice, each one of `s`:
/// all the distinct names when there are three or fewer, else the first
/// three of them in order of first occurrence.
pub proof fn lemma_status_name_list(s: Seq<Seq<char>>)
    ensures
        status_name_list(s).len() == if distinct_in_order(s).len() <= 3 {
            distinct_in_order(s).len()
        } else {
            3
        },
        status_name_list(s).no_duplicates(),
        forall|i: int|
            0 <= i < status_name_list(s).len() ==> s.contains(#[trigger] status_name_list(s)[i]),
        forall|i: int|
            0 <= i < status_name_list(s).len() ==> #[trigger] status_name_list(s)[i]
                == distinct_in_order(s)[i],
{
    lemma_distinct_in_order(s);
    let d = distinct_in_order(s);
    let l = status_name_list(s);
    assert forall|i: int| 0 <= i < l.len() implies s.contains(#[trigger] l[i]) by {
        assert(l[i] == d[i]);
        assert(d.contains(d[i]));
    }
}

/// The names a status line lists: the first three distinct names among
/// `names`, in order of first occurrence.
pub fn status_names(names: &Vec<String>) -> (listed: Vec<String>)
    ensures
        listed@.map_values(|s: String| s@) == status_name_list(names@.map_values(|s: String| s@)),
{
    let ghost all: Seq<Seq<char>> = names@.map_values(|s: String| s@);
    let mut listed: Vec<String> = Vec::new();
    let mut i: usize = 0;
    while i < names.len() && listed.len() < STATUS_NAME_LIMIT
        invariant
            i <= names@.len(),
            all == names@.map_values(|s: String| s@),
            listed@.len() <= STATUS_NAME_LIMIT,
            listed@.map_values(|s: String| s@) == distinct_in_order(all.take(i as int)),
        decreases names@.len() - i,
    {
        let ghost before: Seq<Seq<char>> = listed@.map_values(|s: String| s@);
        let mut seen: bool = false;
        let mut k: usize = 0;
        while k < listed.len()
            invariant
                k <= listed@.len(),
                i < names@.len(),
                before == listed@.map_values(|s: String| s@),
                seen == exists|j: int| 0 <= j < k && before[j] == names@[i as int]@,
            decreases listed@.len() - k,
        {
            let same: bool = listed[k] == names[i];
            proof {
                assert(before[k as int] == listed@[k as int]@);
                if !same {
                    assert(forall|j: int|
                        0 <= j < k + 1 && before[j] == names@[i as int]@ ==> 0 <= j < k);
                }
            }
            if same {
                seen = true;
            }
            k = k + 1;
        }
        proof {
            let t = all.take(i as int + 1);
            assert(t.drop_last() =~= all.take(i as int));
            assert(t.last() == names@[i as int]@);
            if seen {
                let j: int = choose|j: int| 0 <= j < listed@.len() && before[j] == names@[i as int]@;
                assert(before.contains(names@[i as int]@));
            } else {
                assert(!before.contains(names@[i as int]@));
            }
        }
        if !seen {
            listed.push(names[i].clone());
            assert(listed@.map_values(|s: String| s@) =~= before.push(names@[i as int]@));
        }
        i = i + 1;
    }
    proof {
        lemma_distinct_prefix(all, i as int);
        let d = distinct_in_order(all);
        let dp = distinct_in_order(all.take(i as int));
        if i == names.len() {
            assert(all.take(i as int) =~= all);
        } else {
            assert(dp.len() == STATUS_NAME_LIMIT);
            assert(dp =~= d.take(STATUS_NAME_LIMIT as int));
        }
    }
    listed
}

} // verus!
