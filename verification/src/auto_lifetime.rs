//! The analysis behind adding lifetime parameters to a module's type
//! declarations: a type needs a lifetime when it holds a reference itself,
//! or when it names a type that needs one. Each declared type is given with
//! the names of the types that it mentions.
use vstd::prelude::*;

use crate::text::strings_view;

verus! {

/// The mathematical form of the declarations: each type's name with the
/// names that it mentions.
pub open spec fn deps_view(deps: Seq<(String, Vec<String>)>) -> Seq<(Seq<char>, Seq<Seq<char>>)> {
    deps.map_values(|e: (String, Vec<String>)| (e.0@, strings_view(e.1@)))
}

/// `s` together with every declared type that mentions a member of `s`.
pub open spec fn grow(deps: Seq<(Seq<char>, Seq<Seq<char>>)>, s: Set<Seq<char>>) -> Set<Seq<char>> {
    s.union(
        Set::new(
            |x: Seq<char>|
                exists|i: int, j: int|
                    0 <= i < deps.len() && deps[i].0 == x && 0 <= j < deps[i].1.len() && s.contains(
                        #[trigger] deps[i].1[j],
                    ),
        ),
    )
}

/// The types reached from `direct` in at most `k` steps back along
/// "mentions".
pub open spec fn reach(deps: Seq<(Seq<char>, Seq<Seq<char>>)>, direct: Set<Seq<char>>, k: nat) -> Set<
    Seq<char>,
>
    decreases k,
{
    if k == 0 {
        direct
    } else {
        grow(deps, reach(deps, direct, (k - 1) as nat))
    }
}

/// Whether type `x` needs a lifetime: it is one of `direct`, or it mentions,
/// directly or through other declared types, one of `direct`.
pub open spec fn needs_lifetime(
    deps: Seq<(Seq<char>, Seq<Seq<char>>)>,
    direct: Set<Seq<char>>,
    x: Seq<char>,
) -> bool {
    exists|k: nat| #[trigger] reach(deps, direct, k).contains(x)
}

/// Whether `name` is one of `names`.
fn contains_name(names: &Vec<String>, name: &String) -> (b: bool)
    ensures
        b == strings_view(names@).contains(name@),
{
    let mut i: usize = 0;
    while i < names.len()
        invariant
            0 <= i <= names.len(),
            forall|j: int| 0 <= j < i ==> #[trigger] names@[j]@ != name@,
        decreases names.len() - i,
    {
        if names[i] == *name {
            assert(strings_view(names@)[i as int] == name@);
            return true;
        }
        i = i + 1;
    }
    assert forall|j: int| 0 <= j < strings_view(names@).len() implies strings_view(names@)[j]
        != name@ by {
        assert(strings_view(names@)[j] == names@[j]@);
    }
    false
}

/// Whether one of `children` is in `names`.
fn any_in(children: &Vec<String>, names: &Vec<String>) -> (b: bool)
    ensures
        b == exists|j: int|
            0 <= j < children@.len() && strings_view(names@).contains(#[trigger] children@[j]@),
{
    let mut j: usize = 0;
    while j < children.len()
        invariant
            0 <= j <= children.len(),
            forall|k: int| 0 <= k < j ==> !strings_view(names@).contains(#[trigger] children@[k]@),
        decreases children.len() - j,
    {
        if contains_name(names, &children[j]) {
            return true;
        }
        j = j + 1;
    }
    false
}

/// Once `set` holds `direct` and every declared type that mentions one of its
/// members, it holds everything reached from `direct`.
proof fn lemma_closed_holds_reach(
    deps: Seq<(Seq<char>, Seq<Seq<char>>)>,
    direct: Set<Seq<char>>,
    set: Set<Seq<char>>,
    k: nat,
)
    requires
        direct.subset_of(set),
        forall|i: int, j: int|
            0 <= i < deps.len() && 0 <= j < deps[i].1.len() && set.contains(#[trigger] deps[i].1[j])
                ==> set.contains(deps[i].0),
    ensures
        reach(deps, direct, k).subset_of(set),
    decreases k,
{
    if k > 0 {
        lemma_closed_holds_reach(deps, direct, set, (k - 1) as nat);
    }
}

/// The names of the declared types that need a lifetime, each once.
pub fn names_needing_lifetime(deps: &Vec<(String, Vec<String>)>, direct: &Vec<String>) -> (need: Vec<
    String,
>)
    ensures
        strings_view(need@).no_duplicates(),
        forall|x: Seq<char>|
            strings_view(need@).contains(x) <==> needs_lifetime(
                deps_view(deps@),
                strings_view(direct@).to_set(),
                x,
            ),
{
    let ghost d = deps_view(deps@);
    let ghost dir = strings_view(direct@).to_set();
    let ghost keys = d.map_values(|e: (Seq<char>, Seq<Seq<char>>)| e.0).to_set();
    let ghost allowed = dir.union(keys);
    let ghost bound: int = direct.len() + deps.len();
    proof {
        strings_view(direct@).lemma_cardinality_of_set();
        d.map_values(|e: (Seq<char>, Seq<Seq<char>>)| e.0).lemma_cardinality_of_set();
        vstd::set_lib::lemma_len_union(dir, keys);
    }
    let mut need: Vec<String> = Vec::new();
    let mut i: usize = 0;
    while i < direct.len()
        invariant
            0 <= i <= direct.len(),
            dir == strings_view(direct@).to_set(),
            strings_view(need@).no_duplicates(),
            forall|x: Seq<char>| #[trigger]
                strings_view(need@).contains(x) ==> dir.contains(x) && needs_lifetime(d, dir, x),
            forall|j: int| 0 <= j < i ==> strings_view(need@).contains(#[trigger] direct@[j]@),
        decreases direct.len() - i,
    {
        let ghost before = need@;
        if !contains_name(&need, &direct[i]) {
            need.push(direct[i].clone());
            proof {
                assert(strings_view(need@) =~= strings_view(before).push(direct@[i as int]@));
                assert(strings_view(direct@)[i as int] == direct@[i as int]@);
                assert(reach(d, dir, 0).contains(direct@[i as int]@));
                assert forall|x: Seq<char>| #[trigger]
                    strings_view(need@).contains(x) implies dir.contains(x) && needs_lifetime(d, dir, x) by {
                    if x != direct@[i as int]@ {
                        let m = choose|m: int| 0 <= m < strings_view(need@).len()
                            && strings_view(need@)[m] == x;
                        assert(m < strings_view(before).len());
                        assert(strings_view(before)[m] == x);
                        assert(strings_view(before).contains(x));
                    } else {
                        assert(strings_view(direct@).contains(x));
                        assert(reach(d, dir, 0).contains(x));
                    }
                }
                assert forall|j: int| 0 <= j < i + 1 implies strings_view(need@).contains(
                    #[trigger] direct@[j]@,
                ) by {
                    if j < i {
                        let k = choose|k: int| 0 <= k < strings_view(before).len() && strings_view(
                            before,
                        )[k] == direct@[j]@;
                        assert(strings_view(need@)[k] == direct@[j]@);
                    } else {
                        assert(strings_view(need@)[before.len() as int] == direct@[j]@);
                    }
                }
            }
        }
        i = i + 1;
    }
    assert(dir.subset_of(strings_view(need@).to_set())) by {
        assert forall|x: Seq<char>| dir.contains(x) implies strings_view(need@).to_set().contains(x) by {
            let j = choose|j: int| 0 <= j < strings_view(direct@).len() && strings_view(direct@)[j] == x;
            assert(direct@[j]@ == x);
        }
    }
    loop
        invariant
            d == deps_view(deps@),
            dir == strings_view(direct@).to_set(),
            keys == d.map_values(|e: (Seq<char>, Seq<Seq<char>>)| e.0).to_set(),
            allowed == dir.union(keys),
            allowed.len() <= bound,
            allowed.finite(),
            strings_view(need@).no_duplicates(),
            dir.subset_of(strings_view(need@).to_set()),
            forall|x: Seq<char>| #[trigger]
                strings_view(need@).contains(x) ==> allowed.contains(x) && needs_lifetime(d, dir, x),
        ensures
            d == deps_view(deps@),
            dir == strings_view(direct@).to_set(),
            strings_view(need@).no_duplicates(),
            dir.subset_of(strings_view(need@).to_set()),
            forall|x: Seq<char>| #[trigger]
                strings_view(need@).contains(x) ==> needs_lifetime(d, dir, x),
            forall|k: int, j: int|
                0 <= k < d.len() && 0 <= j < d[k].1.len() && strings_view(need@).contains(
                    #[trigger] d[k].1[j],
                ) ==> strings_view(need@).contains(d[k].0),
        decreases bound - need@.len(),
    {
        let ghost start = need@;
        let mut changed = false;
        let mut i: usize = 0;
        while i < deps.len()
            invariant
                0 <= i <= deps.len(),
                d == deps_view(deps@),
                dir == strings_view(direct@).to_set(),
                keys == d.map_values(|e: (Seq<char>, Seq<Seq<char>>)| e.0).to_set(),
                allowed == dir.union(keys),
                strings_view(need@).no_duplicates(),
                dir.subset_of(strings_view(need@).to_set()),
                forall|x: Seq<char>| #[trigger]
                    strings_view(need@).contains(x) ==> allowed.contains(x) && needs_lifetime(d, dir, x),
                need@.len() >= start.len(),
                changed ==> need@.len() > start.len(),
                !changed ==> need@ == start,
                !changed ==> forall|k: int, j: int|
                    0 <= k < i && 0 <= j < d[k].1.len() && strings_view(need@).contains(
                        #[trigger] d[k].1[j],
                    ) ==> strings_view(need@).contains(d[k].0),
            decreases deps.len() - i,
        {
            let ghost before = need@;
            assert(d[i as int] == (deps@[i as int].0@, strings_view(deps@[i as int].1@)));
            if !contains_name(&need, &deps[i].0) {
                if any_in(&deps[i].1, &need) {
                    need.push(deps[i].0.clone());
                    proof {
                        let name = deps@[i as int].0@;
                        assert(strings_view(need@) =~= strings_view(before).push(name));
                        let j = choose|j: int|
                            0 <= j < deps@[i as int].1@.len() && strings_view(before).contains(
                                #[trigger] deps@[i as int].1@[j]@,
                            );
                        let child = deps@[i as int].1@[j]@;
                        assert(d[i as int].1[j] == child);
                        let k = choose|k: nat| #[trigger] reach(d, dir, k).contains(child);
                        assert(reach(d, dir, k + 1).contains(name));
                        assert(keys.contains(name)) by {
                            assert(d.map_values(|e: (Seq<char>, Seq<Seq<char>>)| e.0)[i as int]
                                == name);
                        }
                        assert forall|x: Seq<char>| #[trigger]
                            strings_view(need@).contains(x) implies allowed.contains(x)
                            && needs_lifetime(d, dir, x) by {
                            if x != name {
                                let m = choose|m: int| 0 <= m < strings_view(need@).len()
                                    && strings_view(need@)[m] == x;
                                assert(m < strings_view(before).len());
                                assert(strings_view(before)[m] == x);
                                assert(strings_view(before).contains(x));
                            } else {
                                assert(reach(d, dir, k + 1).contains(x));
                            }
                        }
                        assert(dir.subset_of(strings_view(need@).to_set())) by {
                            assert forall|x: Seq<char>| dir.contains(x) implies strings_view(
                                need@,
                            ).to_set().contains(x) by {
                                assert(strings_view(before).to_set().contains(x));
                                let m = choose|m: int| 0 <= m < strings_view(before).len()
                                    && strings_view(before)[m] == x;
                                assert(strings_view(need@)[m] == x);
                            }
                        }
                    }
                    changed = true;
                } else {
                    proof {
                        assert forall|k: int, j: int|
                            0 <= k < i + 1 && 0 <= j < d[k].1.len() && !changed
                                && strings_view(need@).contains(#[trigger] d[k].1[j]) implies
                            strings_view(need@).contains(d[k].0) by {
                            if k == i {
                                assert(d[k].1[j] == deps@[k].1@[j]@);
                            }
                        }
                    }
                }
            }
            i = i + 1;
        }
        proof {
            let nv = strings_view(need@);
            nv.unique_seq_to_set();
            assert(nv.to_set().subset_of(allowed));
            vstd::set_lib::lemma_len_subset(nv.to_set(), allowed);
        }
        if !changed {
            break;
        }
    }
    proof {
        let set = strings_view(need@).to_set();
        assert forall|x: Seq<char>| needs_lifetime(d, dir, x) implies strings_view(
            need@,
        ).contains(x) by {
            let k = choose|k: nat| #[trigger] reach(d, dir, k).contains(x);
            lemma_closed_holds_reach(d, dir, set, k);
        }
    }
    need
}

/// A type that holds a reference needs a lifetime, and so does every
/// declared type that mentions a type needing one.
pub proof fn law_need_spreads(
    deps: Seq<(Seq<char>, Seq<Seq<char>>)>,
    direct: Set<Seq<char>>,
    i: int,
    j: int,
)
    requires
        0 <= i < deps.len(),
        0 <= j < deps[i].1.len(),
    ensures
        forall|x: Seq<char>| direct.contains(x) ==> needs_lifetime(deps, direct, x),
        needs_lifetime(deps, direct, deps[i].1[j]) ==> needs_lifetime(deps, direct, deps[i].0),
{
    assert forall|x: Seq<char>| direct.contains(x) implies needs_lifetime(deps, direct, x) by {
        assert(reach(deps, direct, 0).contains(x));
    }
    if needs_lifetime(deps, direct, deps[i].1[j]) {
        let k = choose|k: nat| #[trigger] reach(deps, direct, k).contains(deps[i].1[j]);
        assert(reach(deps, direct, k + 1).contains(deps[i].0));
    }
}

} // verus!
