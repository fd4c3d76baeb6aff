//! The named personality profiles and how a profile name is recognised.
use vstd::prelude::*;
use crate::config::str_views;

verus! {

/// The six canonical profile names, in order.
pub open spec fn profile_names() -> Seq<Seq<char>> {
    seq![
        "contemplative"@,
        "action-oriented"@,
        "empathic"@,
        "analytical"@,
        "resilient"@,
        "seeker"@,
    ]
}

/// The six canonical profile names.
pub fn available_profiles() -> (names: Vec<&'static str>)
    ensures
        str_views(names@) == profile_names(),
{
    let mut names: Vec<&'static str> = Vec::new();
    names.push("contemplative");
    names.push("action-oriented");
    names.push("empathic");
    names.push("analytical");
    names.push("resilient");
    names.push("seeker");
    assert(str_views(names@) =~= profile_names());
    names
}

/// The position of `name` among the profile names, or `None` when it names
/// no profile.
pub fn profile_index(name: &str) -> (idx: Option<usize>)
    ensures
        match idx {
            Some(i) => profile_names().index_of_first(name@) == Some(i as int),
            None => profile_names().index_of_first(name@) == None::<int>,
        },
{
    let names: Vec<&'static str> = available_profiles();
    let wanted: String = name.to_owned();
    let ghost views: Seq<Seq<char>> = profile_names();
    let mut i: usize = 0;
    while i < names.len()
        invariant
            i <= names@.len(),
            views == profile_names(),
            str_views(names@) == views,
            wanted@ == name@,
            forall|j: int| 0 <= j < i ==> views[j] != name@,
        decreases names@.len() - i,
    {
        let candidate: String = names[i].to_owned();
        if candidate == wanted {
            proof {
                assert(views[i as int] == names@[i as int]@);
                assert(views.contains(name@));
                views.index_of_first_ensures(name@);
                let first: int = views.index_of_first(name@).unwrap();
                if first < i {
                    assert(views[first] == name@);
                } else if first > i {
                    assert(views[i as int] == name@);
                }
            }
            return Some(i);
        }
        proof {
            assert(views[i as int] == names@[i as int]@);
        }
        i = i + 1;
    }
    proof {
        views.index_of_first_ensures(name@);
        if views.contains(name@) {
            let j: int = choose|j: int| 0 <= j < views.len() && views[j] == name@;
            assert(views[j] == name@);
        }
    }
    None
}

} // verus!
