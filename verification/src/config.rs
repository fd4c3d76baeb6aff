//! Name resolution of the simulation configuration: where an aspect stands
//! in the aspect list, which aspects belong to each category or cluster, and
//! the colour of each category.
use vstd::prelude::*;

verus! {

/// The character sequences of a list of owned names.
pub open spec fn name_views(names: Seq<String>) -> Seq<Seq<char>> {
    names.map_values(|s: String| s@)
}

/// The character sequences of a list of borrowed names.
pub open spec fn str_views(names: Seq<&str>) -> Seq<Seq<char>> {
    names.map_values(|s: &str| s@)
}

/// The indices in `aspects` of those `names` that are aspects (first
/// occurrence of each), in the order of `names`; names that are not aspects
/// are skipped.
pub open spec fn resolved_indices(aspects: Seq<Seq<char>>, names: Seq<Seq<char>>) -> Seq<int> {
    names.filter_map(|m: Seq<char>| aspects.index_of_first(m))
}

/// The indices of the clusters that contain `aspect`, in ascending order,
/// among the first `k` clusters.
pub open spec fn clusters_containing(clusters: Seq<Seq<usize>>, aspect: usize, k: nat) -> Seq<usize>
    decreases k,
{
    if k == 0 {
        Seq::empty()
    } else {
        let rest = clusters_containing(clusters, aspect, (k - 1) as nat);
        if clusters[k - 1].contains(aspect) {
            rest.push((k - 1) as usize)
        } else {
            rest
        }
    }
}

/// The colour of each category, in the order the categories are listed.
pub open spec fn category_color_table() -> Seq<(Seq<char>, Seq<char>)> {
    seq![
        ("cognitive"@, "#4A90D9"@),
        ("emotional"@, "#E8613C"@),
        ("social"@, "#3CB371"@),
        ("executive"@, "#9B59B6"@),
        ("existential"@, "#DAA520"@),
    ]
}

/// The index of `name` in `aspects` (its first occurrence), or `None` when
/// it is not an aspect.
pub fn aspect_position(aspects: &[String], name: &str) -> (pos: Option<usize>)
    ensures
        match pos {
            Some(i) => name_views(aspects@).index_of_first(name@) == Some(i as int),
            None => name_views(aspects@).index_of_first(name@) == None::<int>,
        },
{
    let ghost views: Seq<Seq<char>> = name_views(aspects@);
    let wanted: String = name.to_owned();
    let mut i: usize = 0;
    while i < aspects.len()
        invariant
            i <= aspects@.len(),
            views == name_views(aspects@),
            wanted@ == name@,
            forall|j: int| 0 <= j < i ==> views[j] != name@,
        decreases aspects@.len() - i,
    {
        if aspects[i] == wanted {
            proof {
                assert(views[i as int] == name@);
                assert(views.contains(name@));
                views.index_of_first_ensures(name@);
                let first: int = views.index_of_first(name@).unwrap();
                if first < i {
                    assert(views[first] == name@);
                } else if first > i {
                    assert(views[i as int] == name@);
                }
            }
            return Some(i);
        }
        i = i + 1;
    }
    proof {
        views.index_of_first_ensures(name@);
        if views.contains(name@) {
            let j: int = choose|j: int| 0 <= j < views.len() && views[j] == name@;
            assert(views[j] == name@);
        }
    }
    None
}

/// The indices in `aspects` of those `names` that are aspects, in the order
/// of `names`.
pub fn aspect_indices(aspects: &[String], names: &[&str]) -> (indices: Vec<usize>)
    ensures
        indices@.map_values(|i: usize| i as int) == resolved_indices(
            name_views(aspects@),
            str_views(names@),
        ),
        forall|k: int| 0 <= k < indices@.len() ==> #[trigger] indices@[k] < aspects@.len(),
{
    let ghost aspect_views: Seq<Seq<char>> = name_views(aspects@);
    let ghost name_seq: Seq<Seq<char>> = str_views(names@);
    let ghost f = |m: Seq<char>| aspect_views.index_of_first(m);
    let mut indices: Vec<usize> = Vec::new();
    let mut k: usize = 0;
    while k < names.len()
        invariant
            k <= names@.len(),
            aspect_views == name_views(aspects@),
            name_seq == str_views(names@),
            f == (|m: Seq<char>| aspect_views.index_of_first(m)),
            indices@.map_values(|i: usize| i as int) == name_seq.take(k as int).filter_map(f),
            forall|j: int| 0 <= j < indices@.len() ==> #[trigger] indices@[j] < aspects@.len(),
        decreases names@.len() - k,
    {
        let pos: Option<usize> = aspect_position(aspects, names[k]);
        proof {
            let taken = name_seq.take(k as int + 1);
            assert(taken.drop_last() =~= name_seq.take(k as int));
            assert(taken.last() == names@[k as int]@);
            aspect_views.index_of_first_ensures(names@[k as int]@);
        }
        match pos {
            Some(i) => {
                let ghost before = indices@;
                indices.push(i);
                assert(indices@.map_values(|i: usize| i as int) =~= before.map_values(
                    |i: usize| i as int,
                ).push(i as int));
            },
            None => {},
        }
        k = k + 1;
    }
    assert(name_seq.take(names@.len() as int) =~= name_seq);
    indices
}

/// Every index `clusters_containing` lists is below `k`.
proof fn lemma_clusters_containing_bounded(clusters: Seq<Seq<usize>>, aspect: usize, k: nat)
    ensures
        forall|i: int|
            0 <= i < clusters_containing(clusters, aspect, k).len() ==> #[trigger] clusters_containing(
                clusters,
                aspect,
                k,
            )[i] < k,
    decreases k,
{
    if k > 0 {
        lemma_clusters_containing_bounded(clusters, aspect, (k - 1) as nat);
        let rest = clusters_containing(clusters, aspect, (k - 1) as nat);
        let all = clusters_containing(clusters, aspect, k);
        assert forall|i: int| 0 <= i < all.len() implies #[trigger] all[i] < k by {
            if i < rest.len() {
                assert(rest[i] < k - 1);
            }
        }
    }
}

/// Cluster membership is the inverse of the cluster lists: cluster `c` is
/// listed for `aspect` exactly when `c` is one of the first `k` clusters and
/// its member list holds `aspect`.
pub proof fn lemma_membership_inverse(clusters: Seq<Seq<usize>>, aspect: usize, k: nat, c: usize)
    requires
        k <= clusters.len() <= usize::MAX,
    ensures
        clusters_containing(clusters, aspect, k).contains(c) <==> (c < k
            && clusters[c as int].contains(aspect)),
    decreases k,
{
    if k > 0 {
        lemma_membership_inverse(clusters, aspect, (k - 1) as nat, c);
        lemma_clusters_containing_bounded(clusters, aspect, (k - 1) as nat);
        let rest = clusters_containing(clusters, aspect, (k - 1) as nat);
        let all = clusters_containing(clusters, aspect, k);
        if clusters[k - 1].contains(aspect) {
            assert(all == rest.push((k - 1) as usize));
            if c == k - 1 {
                assert(all[rest.len() as int] == c);
            } else if all.contains(c) {
                let j: int = choose|j: int| 0 <= j < all.len() && all[j] == c;
                assert(j < rest.len());
                assert(rest[j] == c);
            }
            if rest.contains(c) {
                let j: int = choose|j: int| 0 <= j < rest.len() && rest[j] == c;
                assert(all[j] == c);
            }
        } else {
            if rest.contains(c) {
                let j: int = choose|j: int| 0 <= j < rest.len() && rest[j] == c;
                assert(rest[j] < k - 1);
            }
        }
    }
}

/// Cluster membership lists each cluster once, in ascending order.
pub proof fn lemma_membership_ascending(clusters: Seq<Seq<usize>>, aspect: usize, k: nat)
    requires
        k <= usize::MAX,
    ensures
        forall|x: int, y: int|
            0 <= x < y < clusters_containing(clusters, aspect, k).len() ==> #[trigger] clusters_containing(
                clusters,
                aspect,
                k,
            )[x] < #[trigger] clusters_containing(clusters, aspect, k)[y],
    decreases k,
{
    if k > 0 {
        lemma_membership_ascending(clusters, aspect, (k - 1) as nat);
        lemma_clusters_containing_bounded(clusters, aspect, (k - 1) as nat);
        let rest = clusters_containing(clusters, aspect, (k - 1) as nat);
        let all = clusters_containing(clusters, aspect, k);
        assert forall|x: int, y: int| 0 <= x < y < all.len() implies #[trigger] all[x] < #[trigger] all[y] by {
            if clusters[k - 1].contains(aspect) {
                assert(all == rest.push((k - 1) as usize));
            } else {
                assert(all == rest);
            }
            assert(all[x] == rest[x]);
            if y < rest.len() {
                assert(all[y] == rest[y]);
                assert(rest[x] < rest[y]);
            } else {
                assert(all[y] == (k - 1) as usize);
                assert(rest[x] < k - 1);
            }
        }
    }
}

/// For the first `k` entries of `names`, in order, each position whose name
/// is an aspect paired with the index of that aspect.
pub open spec fn resolved_positions(aspects: Seq<Seq<char>>, names: Seq<Seq<char>>, k: nat) -> Seq<
    (usize, usize),
>
    decreases k,
{
    if k == 0 {
        Seq::empty()
    } else {
        let rest = resolved_positions(aspects, names, (k - 1) as nat);
        match aspects.index_of_first(names[k - 1]) {
            Some(i) => rest.push(((k - 1) as usize, i as usize)),
            None => rest,
        }
    }
}

/// `name` first occurs in `aspects` at index `i`.
pub open spec fn first_at(aspects: Seq<Seq<char>>, name: Seq<char>, i: int) -> bool {
    &&& 0 <= i < aspects.len()
    &&& aspects[i] == name
    &&& forall|h: int| 0 <= h < i ==> aspects[h] != name
}

/// `index_of_first` finds exactly the first occurrence.
proof fn lemma_index_of_first_is_first_at(aspects: Seq<Seq<char>>, name: Seq<char>, i: int)
    ensures
        aspects.index_of_first(name) == Some(i) <==> first_at(aspects, name, i),
{
    aspects.index_of_first_ensures(name);
    if first_at(aspects, name, i) {
        assert(aspects.contains(name));
        match aspects.index_of_first(name) {
            Some(f) => {
                if f < i {
                    assert(aspects[f] == name);
                } else if f > i {
                    assert(aspects[i] != name);
                }
            },
            None => {},
        }
    }
}

/// The resolution law over the first `k` names.
proof fn lemma_resolved_positions_prefix(aspects: Seq<Seq<char>>, names: Seq<Seq<char>>, k: nat)
    requires
        k <= names.len() <= usize::MAX,
        aspects.len() <= usize::MAX,
    ensures
        forall|q: int, i: int|
            #![trigger first_at(aspects, names[q], i)]
            0 <= q < k && first_at(aspects, names[q], i) ==> resolved_positions(
                aspects,
                names,
                k,
            ).contains((q as usize, i as usize)),
        forall|x: int|
            0 <= x < resolved_positions(aspects, names, k).len() ==> {
                let e = #[trigger] resolved_positions(aspects, names, k)[x];
                e.0 < k && first_at(aspects, names[e.0 as int], e.1 as int)
            },
        forall|x: int, y: int|
            0 <= x < y < resolved_positions(aspects, names, k).len() ==> (#[trigger] resolved_positions(
                aspects,
                names,
                k,
            )[x]).0 < (#[trigger] resolved_positions(aspects, names, k)[y]).0,
        resolved_positions(aspects, names, k).len() == names.take(k as int).filter(
            |m: Seq<char>| aspects.contains(m),
        ).len(),
    decreases k,
{
    let pred = |m: Seq<char>| aspects.contains(m);
    if k == 0 {
        assert(names.take(0) =~= Seq::<Seq<char>>::empty());
    } else {
        lemma_resolved_positions_prefix(aspects, names, (k - 1) as nat);
        let rest = resolved_positions(aspects, names, (k - 1) as nat);
        let all = resolved_positions(aspects, names, k);
        let name = names[k - 1];
        aspects.index_of_first_ensures(name);
        assert(names.take(k as int) =~= names.take(k - 1).push(name));
        names.take(k - 1).lemma_filter_push(name, pred);
        assert forall|x: int| 0 <= x < rest.len() implies all[x] == rest[x] by {}
        assert forall|q: int, i: int|
            #![trigger first_at(aspects, names[q], i)]
            0 <= q < k && first_at(aspects, names[q], i) implies all.contains(
                (q as usize, i as usize),
            ) by {
            if q < k - 1 {
                assert(rest.contains((q as usize, i as usize)));
                let x: int = choose|x: int| 0 <= x < rest.len() && rest[x] == (q as usize, i as usize);
                assert(all[x] == rest[x]);
            } else {
                lemma_index_of_first_is_first_at(aspects, name, i);
                assert(all[all.len() - 1] == (q as usize, i as usize));
            }
        }
        assert forall|x: int| 0 <= x < all.len() implies {
            let e = #[trigger] all[x];
            e.0 < k && first_at(aspects, names[e.0 as int], e.1 as int)
        } by {
            if x < rest.len() {
                assert(all[x] == rest[x]);
            } else {
                let f = aspects.index_of_first(name)->0;
                lemma_index_of_first_is_first_at(aspects, name, f);
                assert(all[x] == ((k - 1) as usize, f as usize));
            }
        }
        assert forall|x: int, y: int| 0 <= x < y < all.len() implies (#[trigger] all[x]).0 < (
        #[trigger] all[y]).0 by {
            assert(all[x] == rest[x]);
            if y < rest.len() {
                assert(all[y] == rest[y]);
            } else {
                assert(rest[x].0 < k - 1);
            }
        }
    }
}

/// Resolving names keeps every name that is an aspect: for each position `k`
/// of `names` whose name first occurs in `aspects` at `i`, `(k, i)` is in
/// the result; every entry is such a pair; positions ascend strictly; and
/// there is one entry per name that is an aspect.
pub proof fn lemma_resolve_names_complete(aspects: Seq<Seq<char>>, names: Seq<Seq<char>>)
    requires
        names.len() <= usize::MAX,
        aspects.len() <= usize::MAX,
    ensures
        forall|k: int, i: int|
            #![trigger first_at(aspects, names[k], i)]
            0 <= k < names.len() && first_at(aspects, names[k], i) ==> resolved_positions(
                aspects,
                names,
                names.len(),
            ).contains((k as usize, i as usize)),
        forall|x: int|
            0 <= x < resolved_positions(aspects, names, names.len()).len() ==> {
                let e = #[trigger] resolved_positions(aspects, names, names.len())[x];
                e.0 < names.len() && first_at(aspects, names[e.0 as int], e.1 as int)
            },
        forall|x: int, y: int|
            0 <= x < y < resolved_positions(aspects, names, names.len()).len() ==> (
            #[trigger] resolved_positions(aspects, names, names.len())[x]).0 < (
            #[trigger] resolved_positions(aspects, names, names.len())[y]).0,
        resolved_positions(aspects, names, names.len()).len() == names.filter(
            |m: Seq<char>| aspects.contains(m),
        ).len(),
{
    lemma_resolved_positions_prefix(aspects, names, names.len());
    assert(names.take(names.len() as int) =~= names);
}

/// Over the first `k` names, the indices `resolved_indices` lists are the
/// aspect indices of `resolved_positions`, in the same order.
proof fn lemma_indices_of_positions_prefix(aspects: Seq<Seq<char>>, names: Seq<Seq<char>>, k: nat)
    requires
        k <= names.len(),
        aspects.len() <= usize::MAX,
    ensures
        names.take(k as int).filter_map(|m: Seq<char>| aspects.index_of_first(m))
            == resolved_positions(aspects, names, k).map_values(|e: (usize, usize)| e.1 as int),
    decreases k,
{
    let f = |m: Seq<char>| aspects.index_of_first(m);
    let taken = names.take(k as int);
    if k == 0 {
        assert(taken =~= Seq::<Seq<char>>::empty());
        assert(resolved_positions(aspects, names, k).map_values(|e: (usize, usize)| e.1 as int)
            =~= Seq::<int>::empty());
    } else {
        lemma_indices_of_positions_prefix(aspects, names, (k - 1) as nat);
        assert(taken.drop_last() =~= names.take(k - 1));
        assert(taken.last() == names[k - 1]);
        aspects.index_of_first_ensures(names[k - 1]);
        let rest = resolved_positions(aspects, names, (k - 1) as nat);
        let all = resolved_positions(aspects, names, k);
        match aspects.index_of_first(names[k - 1]) {
            Some(i) => {
                assert(all == rest.push(((k - 1) as usize, i as usize)));
                assert(all.map_values(|e: (usize, usize)| e.1 as int) =~= rest.map_values(
                    |e: (usize, usize)| e.1 as int,
                ) + seq![i]);
            },
            None => {
                assert(all == rest);
            },
        }
    }
}

/// Resolving names to bare indices gives the aspect indices that resolving
/// them to positions pairs with each position, in the same order.
pub proof fn lemma_indices_of_positions(aspects: Seq<Seq<char>>, names: Seq<Seq<char>>)
    requires
        aspects.len() <= usize::MAX,
    ensures
        resolved_indices(aspects, names) == resolved_positions(aspects, names, names.len()).map_values(
            |e: (usize, usize)| e.1 as int,
        ),
{
    lemma_indices_of_positions_prefix(aspects, names, names.len());
    assert(names.take(names.len() as int) =~= names);
}

/// For the first `k` name pairs, in order, each position where both names
/// are aspects together with the indices of the two aspects.
pub open spec fn resolved_pair_positions(
    aspects: Seq<Seq<char>>,
    pairs: Seq<(Seq<char>, Seq<char>)>,
    k: nat,
) -> Seq<(usize, usize, usize)>
    decreases k,
{
    if k == 0 {
        Seq::empty()
    } else {
        let rest = resolved_pair_positions(aspects, pairs, (k - 1) as nat);
        match (aspects.index_of_first(pairs[k - 1].0), aspects.index_of_first(pairs[k - 1].1)) {
            (Some(i), Some(j)) => rest.push(((k - 1) as usize, i as usize, j as usize)),
            _ => rest,
        }
    }
}

/// The pair-resolution law over the first `k` pairs.
proof fn lemma_resolved_pair_positions_prefix(
    aspects: Seq<Seq<char>>,
    pairs: Seq<(Seq<char>, Seq<char>)>,
    k: nat,
)
    requires
        k <= pairs.len() <= usize::MAX,
        aspects.len() <= usize::MAX,
    ensures
        forall|q: int, i: int, j: int|
            #![trigger first_at(aspects, pairs[q].0, i), first_at(aspects, pairs[q].1, j)]
            0 <= q < k && first_at(aspects, pairs[q].0, i) && first_at(aspects, pairs[q].1, j)
                ==> resolved_pair_positions(aspects, pairs, k).contains(
                (q as usize, i as usize, j as usize),
            ),
        forall|x: int|
            0 <= x < resolved_pair_positions(aspects, pairs, k).len() ==> {
                let e = #[trigger] resolved_pair_positions(aspects, pairs, k)[x];
                &&& e.0 < k
                &&& first_at(aspects, pairs[e.0 as int].0, e.1 as int)
                &&& first_at(aspects, pairs[e.0 as int].1, e.2 as int)
            },
        forall|x: int, y: int|
            0 <= x < y < resolved_pair_positions(aspects, pairs, k).len() ==> (
            #[trigger] resolved_pair_positions(aspects, pairs, k)[x]).0 < (
            #[trigger] resolved_pair_positions(aspects, pairs, k)[y]).0,
        resolved_pair_positions(aspects, pairs, k).len() == pairs.take(k as int).filter(
            |p: (Seq<char>, Seq<char>)| aspects.contains(p.0) && aspects.contains(p.1),
        ).len(),
    decreases k,
{
    let pred = |p: (Seq<char>, Seq<char>)| aspects.contains(p.0) && aspects.contains(p.1);
    if k == 0 {
        assert(pairs.take(0) =~= Seq::<(Seq<char>, Seq<char>)>::empty());
    } else {
        lemma_resolved_pair_positions_prefix(aspects, pairs, (k - 1) as nat);
        let rest = resolved_pair_positions(aspects, pairs, (k - 1) as nat);
        let all = resolved_pair_positions(aspects, pairs, k);
        let pair = pairs[k - 1];
        aspects.index_of_first_ensures(pair.0);
        aspects.index_of_first_ensures(pair.1);
        assert(pairs.take(k as int) =~= pairs.take(k - 1).push(pair));
        pairs.take(k - 1).lemma_filter_push(pair, pred);
        assert forall|x: int| 0 <= x < rest.len() implies all[x] == rest[x] by {}
        assert forall|q: int, i: int, j: int|
            #![trigger first_at(aspects, pairs[q].0, i), first_at(aspects, pairs[q].1, j)]
            0 <= q < k && first_at(aspects, pairs[q].0, i) && first_at(aspects, pairs[q].1, j)
                implies all.contains((q as usize, i as usize, j as usize)) by {
            if q < k - 1 {
                assert(rest.contains((q as usize, i as usize, j as usize)));
                let x: int = choose|x: int|
                    0 <= x < rest.len() && rest[x] == (q as usize, i as usize, j as usize);
                assert(all[x] == rest[x]);
            } else {
                lemma_index_of_first_is_first_at(aspects, pair.0, i);
                lemma_index_of_first_is_first_at(aspects, pair.1, j);
                assert(all[all.len() - 1] == (q as usize, i as usize, j as usize));
            }
        }
        assert forall|x: int| 0 <= x < all.len() implies {
            let e = #[trigger] all[x];
            &&& e.0 < k
            &&& first_at(aspects, pairs[e.0 as int].0, e.1 as int)
            &&& first_at(aspects, pairs[e.0 as int].1, e.2 as int)
        } by {
            if x < rest.len() {
                assert(all[x] == rest[x]);
            } else {
                let f = aspects.index_of_first(pair.0)->0;
                let g = aspects.index_of_first(pair.1)->0;
                lemma_index_of_first_is_first_at(aspects, pair.0, f);
                lemma_index_of_first_is_first_at(aspects, pair.1, g);
                assert(all[x] == ((k - 1) as usize, f as usize, g as usize));
            }
        }
        assert forall|x: int, y: int| 0 <= x < y < all.len() implies (#[trigger] all[x]).0 < (
        #[trigger] all[y]).0 by {
            assert(all[x] == rest[x]);
            if y < rest.len() {
                assert(all[y] == rest[y]);
            } else {
                assert(rest[x].0 < k - 1);
            }
        }
    }
}

/// Resolving name pairs keeps every pair whose two names are aspects: for
/// each position `k` whose names first occur in `aspects` at `i` and `j`,
/// `(k, i, j)` is in the result; every entry is such a triple; positions
/// ascend strictly; and there is one entry per pair of aspects.
pub proof fn lemma_resolve_name_pairs_complete(
    aspects: Seq<Seq<char>>,
    pairs: Seq<(Seq<char>, Seq<char>)>,
)
    requires
        pairs.len() <= usize::MAX,
        aspects.len() <= usize::MAX,
    ensures
        forall|k: int, i: int, j: int|
            #![trigger first_at(aspects, pairs[k].0, i), first_at(aspects, pairs[k].1, j)]
            0 <= k < pairs.len() && first_at(aspects, pairs[k].0, i) && first_at(
                aspects,
                pairs[k].1,
                j,
            ) ==> resolved_pair_positions(aspects, pairs, pairs.len()).contains(
                (k as usize, i as usize, j as usize),
            ),
        forall|x: int|
            0 <= x < resolved_pair_positions(aspects, pairs, pairs.len()).len() ==> {
                let e = #[trigger] resolved_pair_positions(aspects, pairs, pairs.len())[x];
                &&& e.0 < pairs.len()
                &&& first_at(aspects, pairs[e.0 as int].0, e.1 as int)
                &&& first_at(aspects, pairs[e.0 as int].1, e.2 as int)
            },
        forall|x: int, y: int|
            0 <= x < y < resolved_pair_positions(aspects, pairs, pairs.len()).len() ==> (
            #[trigger] resolved_pair_positions(aspects, pairs, pairs.len())[x]).0 < (
            #[trigger] resolved_pair_positions(aspects, pairs, pairs.len())[y]).0,
        resolved_pair_positions(aspects, pairs, pairs.len()).len() == pairs.filter(
            |p: (Seq<char>, Seq<char>)| aspects.contains(p.0) && aspects.contains(p.1),
        ).len(),
{
    lemma_resolved_pair_positions_prefix(aspects, pairs, pairs.len());
    assert(pairs.take(pairs.len() as int) =~= pairs);
}

/// The character sequences of a list of borrowed name pairs.
pub open spec fn pair_views(pairs: Seq<(&str, &str)>) -> Seq<(Seq<char>, Seq<char>)> {
    pairs.map_values(|p: (&str, &str)| (p.0@, p.1@))
}

/// Each position of `names` whose name is an aspect, in order, with the
/// index of that aspect; names that are not aspects are skipped.  Callers
/// carry data parallel to `names` along by position.
pub fn resolve_names(aspects: &[String], names: &[&str]) -> (found: Vec<(usize, usize)>)
    ensures
        found@ == resolved_positions(name_views(aspects@), str_views(names@), names@.len()),
        forall|k: int|
            0 <= k < found@.len() ==> (#[trigger] found@[k]).0 < names@.len() && found@[k].1
                < aspects@.len(),
{
    let ghost aspect_views: Seq<Seq<char>> = name_views(aspects@);
    let ghost name_seq: Seq<Seq<char>> = str_views(names@);
    let mut found: Vec<(usize, usize)> = Vec::new();
    let mut k: usize = 0;
    while k < names.len()
        invariant
            k <= names@.len(),
            aspect_views == name_views(aspects@),
            name_seq == str_views(names@),
            found@ == resolved_positions(aspect_views, name_seq, k as nat),
            forall|j: int|
                0 <= j < found@.len() ==> (#[trigger] found@[j]).0 < k && found@[j].1
                    < aspects@.len(),
        decreases names@.len() - k,
    {
        let pos: Option<usize> = aspect_position(aspects, names[k]);
        proof {
            assert(name_seq[k as int] == names@[k as int]@);
            aspect_views.index_of_first_ensures(names@[k as int]@);
        }
        match pos {
            Some(i) => {
                found.push((k, i));
            },
            None => {},
        }
        k = k + 1;
    }
    found
}

/// Each position of `pairs` where both names are aspects, in order, with
/// the indices of the two aspects; other pairs are skipped.  Callers carry
/// data parallel to `pairs` along by position.
pub fn resolve_name_pairs(aspects: &[String], pairs: &[(&str, &str)]) -> (found: Vec<
    (usize, usize, usize),
>)
    ensures
        found@ == resolved_pair_positions(name_views(aspects@), pair_views(pairs@), pairs@.len()),
        forall|k: int|
            0 <= k < found@.len() ==> (#[trigger] found@[k]).0 < pairs@.len() && found@[k].1
                < aspects@.len() && found@[k].2 < aspects@.len(),
{
    let ghost aspect_views: Seq<Seq<char>> = name_views(aspects@);
    let ghost pair_seq: Seq<(Seq<char>, Seq<char>)> = pair_views(pairs@);
    let mut found: Vec<(usize, usize, usize)> = Vec::new();
    let mut k: usize = 0;
    while k < pairs.len()
        invariant
            k <= pairs@.len(),
            aspect_views == name_views(aspects@),
            pair_seq == pair_views(pairs@),
            found@ == resolved_pair_positions(aspect_views, pair_seq, k as nat),
            forall|j: int|
                0 <= j < found@.len() ==> (#[trigger] found@[j]).0 < k && found@[j].1
                    < aspects@.len() && found@[j].2 < aspects@.len(),
        decreases pairs@.len() - k,
    {
        let (src, dst) = pairs[k];
        let si: Option<usize> = aspect_position(aspects, src);
        let di: Option<usize> = aspect_position(aspects, dst);
        proof {
            assert(pair_seq[k as int] == (src@, dst@));
            aspect_views.index_of_first_ensures(src@);
            aspect_views.index_of_first_ensures(dst@);
        }
        match (si, di) {
            (Some(i), Some(j)) => {
                found.push((k, i, j));
            },
            _ => {},
        }
        k = k + 1;
    }
    found
}

/// For each category of `cat_table`, its name and the indices of its member
/// aspects, in table order; members that are not aspects are skipped.
pub fn build_categories(cat_table: &[(&str, &[&str])], aspects: &[String]) -> (categories: Vec<
    (String, Vec<usize>),
>)
    ensures
        categories@.len() == cat_table@.len(),
        forall|c: int|
            0 <= c < categories@.len() ==> {
                &&& (#[trigger] categories@[c]).0@ == cat_table@[c].0@
                &&& categories@[c].1@.map_values(|i: usize| i as int) == resolved_indices(
                    name_views(aspects@),
                    str_views(cat_table@[c].1@),
                )
                &&& forall|k: int|
                    0 <= k < categories@[c].1@.len() ==> #[trigger] categories@[c].1@[k]
                        < aspects@.len()
            },
{
    let mut categories: Vec<(String, Vec<usize>)> = Vec::new();
    let mut c: usize = 0;
    while c < cat_table.len()
        invariant
            c <= cat_table@.len(),
            categories@.len() == c,
            forall|j: int|
                0 <= j < c ==> {
                    &&& (#[trigger] categories@[j]).0@ == cat_table@[j].0@
                    &&& categories@[j].1@.map_values(|i: usize| i as int) == resolved_indices(
                        name_views(aspects@),
                        str_views(cat_table@[j].1@),
                    )
                    &&& forall|k: int|
                        0 <= k < categories@[j].1@.len() ==> #[trigger] categories@[j].1@[k]
                            < aspects@.len()
                },
        decreases cat_table@.len() - c,
    {
        let (name, members) = cat_table[c];
        let indices: Vec<usize> = aspect_indices(aspects, members);
        let owned: String = name.to_owned();
        categories.push((owned, indices));
        c = c + 1;
    }
    categories
}

/// Each category with its display colour.
pub fn build_category_colors() -> (colors: Vec<(String, String)>)
    ensures
        colors@.len() == category_color_table().len(),
        forall|c: int|
            0 <= c < colors@.len() ==> (#[trigger] colors@[c]).0@ == category_color_table()[c].0
                && colors@[c].1@ == category_color_table()[c].1,
{
    let mut colors: Vec<(String, String)> = Vec::new();
    colors.push(("cognitive".to_owned(), "#4A90D9".to_owned()));
    colors.push(("emotional".to_owned(), "#E8613C".to_owned()));
    colors.push(("social".to_owned(), "#3CB371".to_owned()));
    colors.push(("executive".to_owned(), "#9B59B6".to_owned()));
    colors.push(("existential".to_owned(), "#DAA520".to_owned()));
    colors
}

/// For each aspect, whether its name is one of `names`.
pub fn name_flags(aspects: &[String], names: &[&str]) -> (flags: Vec<bool>)
    ensures
        flags@.len() == aspects@.len(),
        forall|i: int|
            0 <= i < flags@.len() ==> #[trigger] flags@[i] == str_views(names@).contains(
                aspects@[i]@,
            ),
{
    let ghost name_seq: Seq<Seq<char>> = str_views(names@);
    let mut flags: Vec<bool> = Vec::new();
    let mut i: usize = 0;
    while i < aspects.len()
        invariant
            i <= aspects@.len(),
            flags@.len() == i,
            name_seq == str_views(names@),
            forall|j: int| 0 <= j < i ==> #[trigger] flags@[j] == name_seq.contains(aspects@[j]@),
        decreases aspects@.len() - i,
    {
        let mut found: bool = false;
        let mut k: usize = 0;
        while k < names.len()
            invariant
                i < aspects@.len(),
                k <= names@.len(),
                name_seq == str_views(names@),
                found == exists|j: int| 0 <= j < k && name_seq[j] == aspects@[i as int]@,
            decreases names@.len() - k,
        {
            let candidate: String = names[k].to_owned();
            let same: bool = candidate == aspects[i];
            proof {
                assert(name_seq[k as int] == names@[k as int]@);
                if !same {
                    assert(forall|j: int|
                        0 <= j < k + 1 && name_seq[j] == aspects@[i as int]@ ==> 0 <= j < k);
                }
            }
            if same {
                found = true;
            }
            k = k + 1;
        }
        flags.push(found);
        i = i + 1;
    }
    flags
}

/// For each of the `n` aspects, the indices of the clusters whose member
/// lists contain it, in ascending order.
pub fn cluster_membership(clusters: &Vec<Vec<usize>>, n: usize) -> (membership: Vec<Vec<usize>>)
    ensures
        membership@.len() == n,
        forall|a: int|
            0 <= a < n ==> (#[trigger] membership@[a])@ == clusters_containing(
                clusters@.map_values(|v: Vec<usize>| v@),
                a as usize,
                clusters@.len(),
            ),
{
    let ghost cl: Seq<Seq<usize>> = clusters@.map_values(|v: Vec<usize>| v@);
    let mut membership: Vec<Vec<usize>> = Vec::new();
    let mut a: usize = 0;
    while a < n
        invariant
            a <= n,
            membership@.len() == a,
            cl == clusters@.map_values(|v: Vec<usize>| v@),
            forall|b: int|
                0 <= b < a ==> (#[trigger] membership@[b])@ == clusters_containing(
                    cl,
                    b as usize,
                    clusters@.len(),
                ),
        decreases n - a,
    {
        let mut list: Vec<usize> = Vec::new();
        let mut ci: usize = 0;
        while ci < clusters.len()
            invariant
                a < n,
                ci <= clusters@.len(),
                cl == clusters@.map_values(|v: Vec<usize>| v@),
                list@ == clusters_containing(cl, a, ci as nat),
            decreases clusters@.len() - ci,
        {
            let members: &Vec<usize> = &clusters[ci];
            let mut contains: bool = false;
            let mut k: usize = 0;
            while k < members.len()
                invariant
                    k <= members@.len(),
                    members@ == cl[ci as int],
                    contains == exists|j: int| 0 <= j < k && members@[j] == a,
                decreases members@.len() - k,
            {
                if members[k] == a {
                    contains = true;
                }
                k = k + 1;
            }
            if contains {
                list.push(ci);
            }
            ci = ci + 1;
        }
        membership.push(list);
        a = a + 1;
    }
    membership
}

} // verus!
