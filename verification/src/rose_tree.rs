//! A rose tree that can grow in two directions: every node has parents and
//! children. Its nodes can be collected level by level, parents at negative
//! levels and children at positive ones.

use std::collections::HashMap;
use std::collections::HashSet;
use std::fmt::Debug as DebugTrait;
use std::hash::Hash;

use vstd::prelude::*;
use vstd::std_specs::hash::obeys_key_model;

verus! {

/// RoseTreeNode can start from multiple roots
#[derive(Debug, Hash, PartialEq, Eq)]
pub struct RoseTreeNode<T> {
    pub parents: Vec<RoseTreeNode<T>>,
    pub children: Vec<RoseTreeNode<T>>,
    pub value: T,
}

impl<T: Clone> RoseTreeNode<T> {
    /// A copy of the node and of every node reachable from it.
    fn deep_clone(&self) -> (r: Self)
        ensures
            cloned::<T>(self.value, r.value),
            r.parents@.len() == self.parents@.len(),
            r.children@.len() == self.children@.len(),
        decreases self,
    {
        let mut parents: Vec<RoseTreeNode<T>> = Vec::new();
        let mut i: usize = 0;
        while i < self.parents.len()
            invariant
                i <= self.parents@.len(),
                parents@.len() == i,
            decreases self.parents@.len() - i,
        {
            assert(decreases_to!(self => self.parents@[i as int]));
            parents.push(self.parents[i].deep_clone());
            i = i + 1;
        }
        let mut children: Vec<RoseTreeNode<T>> = Vec::new();
        let mut j: usize = 0;
        while j < self.children.len()
            invariant
                j <= self.children@.len(),
                children@.len() == j,
            decreases self.children@.len() - j,
        {
            assert(decreases_to!(self => self.children@[j as int]));
            children.push(self.children[j].deep_clone());
            j = j + 1;
        }
        RoseTreeNode { parents, children, value: self.value.clone() }
    }
}

impl<T: Clone> Clone for RoseTreeNode<T> {
    fn clone(&self) -> (r: Self)
        ensures
            cloned::<T>(self.value, r.value),
            r.parents@.len() == self.parents@.len(),
            r.children@.len() == self.children@.len(),
    {
        self.deep_clone()
    }
}

// ---------------------------------------------------------------------
// Generations
// ---------------------------------------------------------------------

/// The nodes of `s` together with all the nodes reachable from them through
/// `parents` links, counted with repetition.
pub open spec fn parent_count<T>(s: Seq<RoseTreeNode<T>>) -> nat
    decreases s,
{
    if s.len() == 0 {
        0
    } else {
        parent_count(s.drop_last()) + 1 + parent_count(s.last().parents@)
    }
}

/// The nodes of `s` together with all the nodes reachable from them through
/// `children` links, counted with repetition.
pub open spec fn child_count<T>(s: Seq<RoseTreeNode<T>>) -> nat
    decreases s,
{
    if s.len() == 0 {
        0
    } else {
        child_count(s.drop_last()) + 1 + child_count(s.last().children@)
    }
}

/// The parents of the nodes of `s`, gathered from the last node to the first.
pub open spec fn parent_generation<T>(s: Seq<RoseTreeNode<T>>) -> Seq<RoseTreeNode<T>>
    decreases s.len(),
{
    if s.len() == 0 {
        Seq::empty()
    } else {
        s.last().parents@ + parent_generation(s.drop_last())
    }
}

/// The children of the nodes of `s`, gathered from the last node to the first.
pub open spec fn child_generation<T>(s: Seq<RoseTreeNode<T>>) -> Seq<RoseTreeNode<T>>
    decreases s.len(),
{
    if s.len() == 0 {
        Seq::empty()
    } else {
        s.last().children@ + child_generation(s.drop_last())
    }
}

/// The values of the nodes of `s`, from the last node to the first.
pub open spec fn values_of<T>(s: Seq<RoseTreeNode<T>>) -> Seq<T>
    decreases s.len(),
{
    if s.len() == 0 {
        Seq::empty()
    } else {
        seq![s.last().value] + values_of(s.drop_last())
    }
}

/// Counting distributes over concatenation.
pub proof fn lemma_parent_count_add<T>(a: Seq<RoseTreeNode<T>>, b: Seq<RoseTreeNode<T>>)
    ensures
        parent_count(a + b) == parent_count(a) + parent_count(b),
    decreases b.len(),
{
    if b.len() == 0 {
        assert(a + b =~= a);
    } else {
        lemma_parent_count_add(a, b.drop_last());
        assert((a + b).drop_last() =~= a + b.drop_last());
        assert((a + b).last() == b.last());
    }
}

/// Counting distributes over concatenation.
pub proof fn lemma_child_count_add<T>(a: Seq<RoseTreeNode<T>>, b: Seq<RoseTreeNode<T>>)
    ensures
        child_count(a + b) == child_count(a) + child_count(b),
    decreases b.len(),
{
    if b.len() == 0 {
        assert(a + b =~= a);
    } else {
        lemma_child_count_add(a, b.drop_last());
        assert((a + b).drop_last() =~= a + b.drop_last());
        assert((a + b).last() == b.last());
    }
}

/// Going up one generation leaves the nodes of the current generation behind.
pub proof fn lemma_parent_generation_count<T>(s: Seq<RoseTreeNode<T>>)
    ensures
        parent_count(parent_generation(s)) + s.len() == parent_count(s),
    decreases s.len(),
{
    if s.len() > 0 {
        lemma_parent_generation_count(s.drop_last());
        lemma_parent_count_add(s.last().parents@, parent_generation(s.drop_last()));
    }
}

/// Going down one generation leaves the nodes of the current generation behind.
pub proof fn lemma_child_generation_count<T>(s: Seq<RoseTreeNode<T>>)
    ensures
        child_count(child_generation(s)) + s.len() == child_count(s),
    decreases s.len(),
{
    if s.len() > 0 {
        lemma_child_generation_count(s.drop_last());
        lemma_child_count_add(s.last().children@, child_generation(s.drop_last()));
    }
}

/// The values found one, two, ... generations up from the nodes `s`:
/// element `k` holds the values of the generation `k` steps above `s`
/// (element 0 the values of `s` itself), up to the last non-empty one.
pub open spec fn ancestry<T>(s: Seq<RoseTreeNode<T>>) -> Seq<Seq<T>>
    decreases parent_count(s),
{
    if s.len() == 0 {
        Seq::empty()
    } else {
        proof {
            lemma_parent_generation_count(s);
        }
        seq![values_of(s)] + ancestry(parent_generation(s))
    }
}

/// The generations found going down from the nodes `s`: element 0 is `s`,
/// element `k` the nodes `k` steps below, up to the last non-empty one.
pub open spec fn descent<T>(s: Seq<RoseTreeNode<T>>) -> Seq<Seq<RoseTreeNode<T>>>
    decreases child_count(s),
{
    if s.len() == 0 {
        Seq::empty()
    } else {
        proof {
            lemma_child_generation_count(s);
        }
        seq![s] + descent(child_generation(s))
    }
}

/// The views of a sequence of vectors.
pub open spec fn vec_views<T>(s: Seq<Vec<T>>) -> Seq<Seq<T>> {
    s.map_values(|v: Vec<T>| v@)
}

// ---------------------------------------------------------------------
// Levels
// ---------------------------------------------------------------------

/// The sets held by a map of hash sets.
pub open spec fn set_view<T>(m: Map<i32, HashSet<T>>) -> Map<i32, Set<T>> {
    m.map_values(|h: HashSet<T>| h@)
}

/// Levels `levels[k]` for `lo <= k`, laid out from level `-1` downwards
/// (`upward == false`) or from level `1` upwards (`upward == true`):
/// `levels[k]` sits at level `-(k + 1)` or `k + 1`.
pub open spec fn level_map_from<T>(levels: Seq<Seq<T>>, upward: bool, lo: int) -> Map<i32, Set<T>> {
    Map::new(
        |l: i32|
            if upward {
                lo + 1 <= l <= levels.len()
            } else {
                -levels.len() <= l <= -(lo + 1)
            },
        |l: i32|
            if upward {
                levels[l - 1].to_set()
            } else {
                levels[-l - 1].to_set()
            },
    )
}

/// All the levels, laid out as `level_map_from` does.
pub open spec fn level_map<T>(levels: Seq<Seq<T>>, upward: bool) -> Map<i32, Set<T>> {
    level_map_from(levels, upward, 0)
}

/// The level of `levels[k]` in a layout of `level_map`.
pub open spec fn level_key(k: int, upward: bool) -> int {
    if upward {
        k + 1
    } else {
        -(k + 1)
    }
}

/// `m` with `extra` added to the set at `key` (the set is created if absent).
pub open spec fn add_to_level<T>(m: Map<i32, Set<T>>, key: i32, extra: Set<T>) -> Map<i32, Set<T>> {
    m.insert(
        key,
        if m.contains_key(key) {
            m[key] + extra
        } else {
            extra
        },
    )
}

/// `m` with `levels[k]` added at level `top - (k + 1)`, the levels taken from
/// the last to the first.
pub open spec fn merge_levels<T>(m: Map<i32, Set<T>>, levels: Seq<Seq<T>>, top: int) -> Map<
    i32,
    Set<T>,
>
    decreases levels.len(),
{
    if levels.len() == 0 {
        m
    } else {
        merge_levels(
            add_to_level(m, (top - levels.len()) as i32, levels.last().to_set()),
            levels.drop_last(),
            top,
        )
    }
}

/// `m` with `levels[k]` added to level `k + 1`, the levels taken from the
/// last to the first.
pub open spec fn add_child_levels<T>(m: Map<i32, Set<T>>, levels: Seq<Seq<T>>) -> Map<i32, Set<T>>
    decreases levels.len(),
{
    if levels.len() == 0 {
        m
    } else {
        add_child_levels(
            add_to_level(m, levels.len() as i32, levels.last().to_set()),
            levels.drop_last(),
        )
    }
}

/// `m` with the ancestry of every node of the generation `g`, sitting at
/// level `level`, merged in relative to that level; nodes taken from the last.
pub open spec fn merge_generation<T>(m: Map<i32, Set<T>>, g: Seq<RoseTreeNode<T>>, level: int) -> Map<
    i32,
    Set<T>,
>
    decreases g.len(),
{
    if g.len() == 0 {
        m
    } else {
        merge_generation(merge_levels(m, ancestry(g.last().parents@), level), g.drop_last(), level)
    }
}

/// `m` with the ancestries of the nodes of generations `gens`, the first of
/// which sits at level `level`, merged in.
pub open spec fn merge_descent<T>(m: Map<i32, Set<T>>, gens: Seq<Seq<RoseTreeNode<T>>>, level: int) -> Map<
    i32,
    Set<T>,
>
    decreases gens.len(),
{
    if gens.len() == 0 {
        m
    } else {
        merge_descent(merge_generation(m, gens[0], level), gens.drop_first(), level + 1)
    }
}

/// Values of the generations below the nodes `s`, level by level.
pub open spec fn descent_values<T>(s: Seq<RoseTreeNode<T>>) -> Seq<Seq<T>> {
    descent(s).map_values(|g: Seq<RoseTreeNode<T>>| values_of(g))
}

// ---------------------------------------------------------------------
// Executable
// ---------------------------------------------------------------------

/// The values of the generations above the nodes `parents`, level by level.
fn ancestry_levels<T>(parents: Vec<RoseTreeNode<T>>) -> (levels: Vec<Vec<T>>)
    ensures
        vec_views(levels@) == ancestry(parents@),
{
    let mut current = parents;
    let mut levels: Vec<Vec<T>> = Vec::new();
    while current.len() > 0
        invariant
            vec_views(levels@) + ancestry(current@) == ancestry(parents@),
        decreases parent_count(current@),
    {
        let ghost cur0 = current@;
        let mut next: Vec<RoseTreeNode<T>> = Vec::new();
        let mut vals: Vec<T> = Vec::new();
        while current.len() > 0
            invariant
                next@ + parent_generation(current@) == parent_generation(cur0),
                vals@ + values_of(current@) == values_of(cur0),
            decreases current.len(),
        {
            let ghost before = current@;
            let node = current.pop().unwrap();
            assert(current@ == before.drop_last());
            let RoseTreeNode { parents: mut ps, children: _, value } = node;
            let ghost old_next = next@;
            let ghost old_vals = vals@;
            next.append(&mut ps);
            vals.push(value);
            assert(old_next + parent_generation(before) =~= next@ + parent_generation(current@));
            assert(old_vals + values_of(before) =~= vals@ + values_of(current@));
        }
        assert(next@ =~= parent_generation(cur0));
        assert(vals@ =~= values_of(cur0));
        proof {
            lemma_parent_generation_count(cur0);
        }
        let ghost old_levels = vec_views(levels@);
        levels.push(vals);
        assert(vec_views(levels@) =~= old_levels.push(values_of(cur0)));
        assert(old_levels + ancestry(cur0) =~= vec_views(levels@) + ancestry(next@));
        current = next;
    }
    assert(vec_views(levels@) + ancestry(current@) =~= vec_views(levels@));
    levels
}

/// Adds the values of `v` to `set`.
fn add_all<T: Eq + Hash>(set: &mut HashSet<T>, v: Vec<T>)
    requires
        obeys_key_model::<T>(),
    ensures
        final(set)@ == old(set)@ + v@.to_set(),
{
    let ghost init = set@;
    let ghost orig = v@;
    let mut v = v;
    assert(v@.take(v@.len() as int) =~= orig);
    while v.len() > 0
        invariant
            obeys_key_model::<T>(),
            set@ + v@.to_set() == init + orig.to_set(),
        decreases v.len(),
    {
        let ghost before = v@;
        let x = v.pop().unwrap();
        assert(v@ == before.drop_last());
        let ghost old_set = set@;
        set.insert(x);
        assert(set@ + v@.to_set() =~= old_set + before.to_set()) by {
            assert forall|a: T| before.contains(a) <==> (v@.contains(a) || a == x) by {
                if before.contains(a) {
                    let i = choose|i: int| 0 <= i < before.len() && before[i] == a;
                    if i < before.len() - 1 {
                        assert(v@[i] == a);
                    }
                }
                if v@.contains(a) {
                    let i = choose|i: int| 0 <= i < v@.len() && v@[i] == a;
                    assert(before[i] == a);
                }
                if a == x {
                    assert(before[before.len() - 1] == a);
                }
            }
        }
    }
    assert(set@ + v@.to_set() =~= set@);
}

/// The set of the values of `v`.
fn set_of<T: Eq + Hash>(v: Vec<T>) -> (s: HashSet<T>)
    requires
        obeys_key_model::<T>(),
    ensures
        s@ == v@.to_set(),
{
    let mut s: HashSet<T> = HashSet::new();
    add_all(&mut s, v);
    assert(Set::<T>::empty() + v@.to_set() =~= v@.to_set());
    s
}

/// Puts `levels[k]` at its level (see `level_map`), replacing what `m` held
/// there.
fn insert_levels<T: Eq + Hash>(m: &mut HashMap<i32, HashSet<T>>, levels: Vec<Vec<T>>, upward: bool)
    requires
        obeys_key_model::<T>(),
        upward ==> levels@.len() <= i32::MAX,
        !upward ==> levels@.len() <= 0x8000_0000,
    ensures
        set_view(final(m)@) == set_view(old(m)@).union_prefer_right(
            level_map(vec_views(levels@), upward),
        ),
{
    let ghost init = set_view(m@);
    let ghost all = vec_views(levels@);
    let mut levels = levels;
    assert(set_view(m@) =~= init.union_prefer_right(
        level_map_from(all, upward, levels@.len() as int),
    ));
    while levels.len() > 0
        invariant
            obeys_key_model::<T>(),
            vec_views(levels@) == all.take(levels@.len() as int),
            levels@.len() <= all.len(),
            upward ==> all.len() <= i32::MAX,
            !upward ==> all.len() <= 0x8000_0000,
            set_view(m@) == init.union_prefer_right(
                level_map_from(all, upward, levels@.len() as int),
            ),
        decreases levels.len(),
    {
        let ghost before = levels@;
        let k = levels.len() - 1;
        let vals = levels.pop().unwrap();
        assert(levels@ == before.drop_last());
        assert(vals@ == all[k as int]) by {
            assert(vec_views(before)[k as int] == all.take(before.len() as int)[k as int]);
        }
        assert(vec_views(levels@) =~= all.take(levels@.len() as int)) by {
            assert(vec_views(levels@) =~= vec_views(before).drop_last());
        }
        let key: i32 = if upward {
            (k as i32) + 1
        } else {
            -1 - (k as i32)
        };
        assert(key == level_key(k as int, upward));
        let set = set_of(vals);
        let ghost old_m = m@;
        m.insert(key, set);
        assert(set_view(m@) =~= set_view(old_m).insert(key, all[k as int].to_set()));
        assert(set_view(m@) =~= init.union_prefer_right(level_map_from(all, upward, k as int)));
    }
}

/// Adds `levels[k]` at level `top - (k + 1)`, keeping what `m` held there.
/// Adds `levels[k]` to level `k + 1` of `m`, keeping what the level held.
fn add_child_levels_into<T: Eq + Hash>(m: &mut HashMap<i32, HashSet<T>>, levels: Vec<Vec<T>>)
    requires
        obeys_key_model::<T>(),
        levels@.len() <= i32::MAX,
    ensures
        set_view(final(m)@) == add_child_levels(set_view(old(m)@), vec_views(levels@)),
{
    let ghost goal = add_child_levels(set_view(m@), vec_views(levels@));
    let mut levels = levels;
    while levels.len() > 0
        invariant
            obeys_key_model::<T>(),
            levels@.len() <= i32::MAX,
            add_child_levels(set_view(m@), vec_views(levels@)) == goal,
        decreases levels.len(),
    {
        let ghost before = vec_views(levels@);
        let n = levels.len();
        let vals = levels.pop().unwrap();
        assert(vec_views(levels@) =~= before.drop_last());
        assert(vals@ == before.last());
        let key: i32 = n as i32;
        let ghost old_view = set_view(m@);
        let existing = m.remove(&key);
        let mut set = match existing {
            Some(s) => s,
            None => HashSet::new(),
        };
        let ghost had = old_view.contains_key(key);
        assert(had ==> set@ == old_view[key]);
        assert(!had ==> set@ == Set::<T>::empty());
        add_all(&mut set, vals);
        m.insert(key, set);
        assert(set_view(m@) =~= add_to_level(old_view, key, before.last().to_set())) by {
            if !had {
                assert(Set::<T>::empty() + before.last().to_set() =~= before.last().to_set());
            }
        }
    }
    assert(vec_views(levels@) =~= Seq::<Seq<T>>::empty());
}

fn merge_levels_into<T: Eq + Hash>(m: &mut HashMap<i32, HashSet<T>>, levels: Vec<Vec<T>>, top: i32)
    requires
        obeys_key_model::<T>(),
        top - levels@.len() >= i32::MIN,
    ensures
        set_view(final(m)@) == merge_levels(set_view(old(m)@), vec_views(levels@), top as int),
{
    let ghost goal = merge_levels(set_view(m@), vec_views(levels@), top as int);
    let mut levels = levels;
    while levels.len() > 0
        invariant
            obeys_key_model::<T>(),
            top - levels@.len() >= i32::MIN,
            merge_levels(set_view(m@), vec_views(levels@), top as int) == goal,
        decreases levels.len(),
    {
        let ghost before = vec_views(levels@);
        let n = levels.len();
        let vals = levels.pop().unwrap();
        assert(vec_views(levels@) =~= before.drop_last());
        assert(vals@ == before.last());
        let key: i32 = ((top as i64) - (n as i64)) as i32;
        let ghost old_view = set_view(m@);
        let existing = m.remove(&key);
        let mut set = match existing {
            Some(s) => s,
            None => HashSet::new(),
        };
        let ghost had = old_view.contains_key(key);
        assert(had ==> set@ == old_view[key]);
        assert(!had ==> set@ == Set::<T>::empty());
        add_all(&mut set, vals);
        m.insert(key, set);
        assert(set_view(m@) =~= add_to_level(old_view, key, before.last().to_set())) by {
            if !had {
                assert(Set::<T>::empty() + before.last().to_set() =~= before.last().to_set());
            }
        }
    }
    assert(vec_views(levels@) =~= Seq::<Seq<T>>::empty());
}

/// The ancestries of all the nodes below `s` have at most `i32::MAX` levels.
pub open spec fn descent_ancestries_fit<T>(s: Seq<RoseTreeNode<T>>) -> bool {
    forall|l: int, i: int|
        0 <= l < descent(s).len() && 0 <= i < descent(s)[l].len() ==> #[trigger] ancestry(
            descent(s)[l][i].parents@,
        ).len() <= i32::MAX
}

/// The levels below `children` (level 1 holds `children` themselves) fit in
/// `i32`, and so do the levels of the ancestors of every node found there.
pub open spec fn descent_fits<T>(children: Seq<RoseTreeNode<T>>) -> bool {
    &&& descent(children).len() <= i32::MAX
    &&& descent_ancestries_fit(children)
}

/// Walks down from `children` generation by generation, returning their
/// values level by level and merging the ancestors of every node met into
/// `parents_by_level`, relative to the node's own level.
fn descend<T: Eq + Hash>(
    children: Vec<RoseTreeNode<T>>,
    parents_by_level: &mut HashMap<i32, HashSet<T>>,
) -> (levels: Vec<Vec<T>>)
    requires
        obeys_key_model::<T>(),
        descent_fits(children@),
    ensures
        vec_views(levels@) == descent_values(children@),
        set_view(final(parents_by_level)@) == merge_descent(
            set_view(old(parents_by_level)@),
            descent(children@),
            1,
        ),
{
    let ghost all = descent(children@);
    let ghost goal = merge_descent(set_view(parents_by_level@), all, 1);
    let mut current = children;
    let mut level: i32 = 0;
    let mut levels: Vec<Vec<T>> = Vec::new();
    assert(all.skip(0) =~= all);
    assert(vec_views(levels@) =~= all.take(0).map_values(|g: Seq<RoseTreeNode<T>>| values_of(g)));
    while current.len() > 0
        invariant
            obeys_key_model::<T>(),
            all == descent(children@),
            descent_fits(children@),
            0 <= level <= all.len(),
            descent(current@) == all.skip(level as int),
            vec_views(levels@) == all.take(level as int).map_values(
                |g: Seq<RoseTreeNode<T>>| values_of(g),
            ),
            merge_descent(set_view(parents_by_level@), descent(current@), level + 1) == goal,
        decreases child_count(current@),
    {
        let ghost cur0 = current@;
        let ghost level0 = level;
        assert(descent(cur0)[0] == cur0);
        assert(all[level0 as int] == cur0);
        level = level + 1;
        let ghost m0 = set_view(parents_by_level@);
        let mut next: Vec<RoseTreeNode<T>> = Vec::new();
        let mut vals: Vec<T> = Vec::new();
        while current.len() > 0
            invariant
                obeys_key_model::<T>(),
                all == descent(children@),
                descent_fits(children@),
                1 <= level <= all.len(),
                all[level - 1] == cur0,
                current@ == cur0.take(current@.len() as int),
                current@.len() <= cur0.len(),
                next@ + child_generation(current@) == child_generation(cur0),
                vals@ + values_of(current@) == values_of(cur0),
                merge_generation(set_view(parents_by_level@), current@, level as int)
                    == merge_generation(m0, cur0, level as int),
            decreases current.len(),
        {
            let ghost before = current@;
            let node = current.pop().unwrap();
            assert(current@ == before.drop_last());
            assert(current@ =~= cur0.take(current@.len() as int));
            assert(node == cur0[current@.len() as int]);
            let RoseTreeNode { parents, children: mut cs, value } = node;
            assert(ancestry(parents@).len() <= i32::MAX) by {
                assert(ancestry(all[level - 1][current@.len() as int].parents@).len() <= i32::MAX);
            }
            let anc = ancestry_levels(parents);
            merge_levels_into(parents_by_level, anc, level);
            let ghost old_next = next@;
            let ghost old_vals = vals@;
            next.append(&mut cs);
            vals.push(value);
            assert(old_next + child_generation(before) =~= next@ + child_generation(current@));
            assert(old_vals + values_of(before) =~= vals@ + values_of(current@));
        }
        assert(next@ =~= child_generation(cur0));
        assert(vals@ =~= values_of(cur0));
        proof {
            lemma_child_generation_count(cur0);
        }
        assert(descent(next@) =~= all.skip(level as int)) by {
            assert(descent(cur0) =~= seq![cur0] + descent(next@));
            assert(all.skip(level0 as int).drop_first() =~= all.skip(level as int));
        }
        assert(set_view(parents_by_level@) == merge_generation(m0, cur0, level as int)) by {
            assert(current@.len() == 0);
        }
        assert(merge_descent(m0, descent(cur0), level as int) == merge_descent(
            merge_generation(m0, cur0, level as int),
            descent(next@),
            level + 1,
        )) by {
            assert(descent(cur0) =~= seq![cur0] + descent(next@));
            assert(descent(cur0).drop_first() =~= descent(next@));
        }
        let ghost old_levels = vec_views(levels@);
        levels.push(vals);
        assert(vec_views(levels@) =~= all.take(level as int).map_values(
            |g: Seq<RoseTreeNode<T>>| values_of(g),
        )) by {
            assert(vec_views(levels@) =~= old_levels.push(values_of(cur0)));
        }
        current = next;
    }
    assert(all.skip(level as int).len() == 0);
    assert(vec_views(levels@) =~= descent_values(children@)) by {
        assert(all.take(level as int) =~= all);
    }
    levels
}

impl<T: Clone + DebugTrait + Eq + Hash> RoseTreeNode<T> {
    pub fn set_parents(&mut self, parents: Vec<RoseTreeNode<T>>)
        ensures
            final(self).parents == parents,
            final(self).children == old(self).children,
            final(self).value == old(self).value,
    {
        self.parents = parents;
    }

    pub fn set_children(&mut self, children: Vec<RoseTreeNode<T>>)
        ensures
            final(self).children == children,
            final(self).parents == old(self).parents,
            final(self).value == old(self).value,
    {
        self.children = children;
    }

    pub fn get_value(self) -> (v: T)
        ensures
            v == self.value,
    {
        self.value
    }

    /// A node without parents and children.
    pub fn new(value: T) -> (node: RoseTreeNode<T>)
        ensures
            node.value == value,
            node.parents@.len() == 0,
            node.children@.len() == 0,
    {
        RoseTreeNode { parents: Vec::new(), children: Vec::new(), value }
    }

    /// The values of the ancestors of `node`, level by level: level `-1`
    /// holds the values of its parents, level `-2` those of their parents,
    /// and so on (a BFS going up).
    pub fn parents_by_level(node: RoseTreeNode<T>) -> (levels: HashMap<i32, HashSet<T>>)
        requires
            obeys_key_model::<T>(),
            ancestry(node.parents@).len() <= 0x8000_0000,
        ensures
            set_view(levels@) == level_map(ancestry(node.parents@), false),
    {
        let ancestors = ancestry_levels(node.parents);
        let mut levels: HashMap<i32, HashSet<T>> = HashMap::new();
        insert_levels(&mut levels, ancestors, false);
        assert(set_view(Map::<i32, HashSet<T>>::empty()).union_prefer_right(
            level_map(ancestry(node.parents@), false),
        ) =~= level_map(ancestry(node.parents@), false));
        levels
    }

    /// The values of the descendants of `node`, level by level: level `1`
    /// holds the values of its children, level `2` those of their children,
    /// and so on (a BFS going down). Every descendant met at level `l` also
    /// has its own ancestors merged into `parents_by_level`: its ancestors
    /// `k` levels above it go to level `l - k`.
    pub fn children_by_level(
        node: RoseTreeNode<T>,
        parents_by_level: &mut HashMap<i32, HashSet<T>>,
    ) -> (levels: HashMap<i32, HashSet<T>>)
        requires
            obeys_key_model::<T>(),
            descent_fits(node.children@),
        ensures
            set_view(levels@) == level_map(descent_values(node.children@), true),
            set_view(final(parents_by_level)@) == merge_descent(
                set_view(old(parents_by_level)@),
                descent(node.children@),
                1,
            ),
    {
        let ghost gens = descent(node.children@);
        let descendants = descend(node.children, parents_by_level);
        let mut levels: HashMap<i32, HashSet<T>> = HashMap::new();
        assert(vec_views(descendants@).len() == gens.len());
        insert_levels(&mut levels, descendants, true);
        assert(set_view(Map::<i32, HashSet<T>>::empty()).union_prefer_right(
            level_map(descent_values(node.children@), true),
        ) =~= level_map(descent_values(node.children@), true));
        levels
    }

    /// Iterate to parents and children from the given node, collecting all the
    /// relations (BFS-like) and return a hashmap where the key is the level of
    /// the hashset nodes: level `0` holds the node's value, negative levels
    /// its ancestors, positive levels its descendants.
    pub fn nodes_by_level(node: RoseTreeNode<T>) -> (levels: HashMap<i32, HashSet<T>>)
        requires
            obeys_key_model::<T>(),
            ancestry(node.parents@).len() <= 0x8000_0000,
            descent_fits(node.children@),
        ensures
            set_view(levels@) == nodes_by_level_spec(node),
    {
        let ghost n = node;
        let RoseTreeNode { parents, children, value } = node;
        let mut levels: HashMap<i32, HashSet<T>> = HashMap::new();
        let mut current_level_rows: HashSet<T> = HashSet::new();
        current_level_rows.insert(value);
        levels.insert(0, current_level_rows);
        assert(set_view(levels@) =~= Map::<i32, Set<T>>::empty().insert(0, set![n.value]));
        let ancestors = ancestry_levels(parents);
        insert_levels(&mut levels, ancestors, false);
        let descendants = descend(children, &mut levels);
        assert(vec_views(descendants@).len() == descent(n.children@).len());
        add_child_levels_into(&mut levels, descendants);
        levels
    }
}

/// What `nodes_by_level` collects for `node`: its value at level `0` and its
/// ancestors at negative levels, then the ancestors of its descendants merged
/// in relative to their levels, and finally its descendants added at positive
/// levels, next to the ancestors merged there: all relations are collected.
pub open spec fn nodes_by_level_spec<T>(node: RoseTreeNode<T>) -> Map<i32, Set<T>> {
    let base = Map::<i32, Set<T>>::empty().insert(0, set![node.value]).union_prefer_right(
        level_map(ancestry(node.parents@), false),
    );
    add_child_levels(merge_descent(base, descent(node.children@), 1), descent_values(node.children@))
}

/// Merging levels in only adds values: what a level held, it still holds.
proof fn lemma_merge_levels_keeps<T>(m: Map<i32, Set<T>>, levels: Seq<Seq<T>>, top: int, k: i32, v: T)
    requires
        m.contains_key(k) && m[k].contains(v),
    ensures
        merge_levels(m, levels, top).contains_key(k) && merge_levels(m, levels, top)[k].contains(v),
    decreases levels.len(),
{
    if levels.len() > 0 {
        let next = add_to_level(m, (top - levels.len()) as i32, levels.last().to_set());
        assert(next.contains_key(k) && next[k].contains(v));
        lemma_merge_levels_keeps(next, levels.drop_last(), top, k, v);
    }
}

proof fn lemma_merge_generation_keeps<T>(
    m: Map<i32, Set<T>>,
    g: Seq<RoseTreeNode<T>>,
    level: int,
    k: i32,
    v: T,
)
    requires
        m.contains_key(k) && m[k].contains(v),
    ensures
        merge_generation(m, g, level).contains_key(k) && merge_generation(m, g, level)[k].contains(v),
    decreases g.len(),
{
    if g.len() > 0 {
        let next = merge_levels(m, ancestry(g.last().parents@), level);
        lemma_merge_levels_keeps(m, ancestry(g.last().parents@), level, k, v);
        lemma_merge_generation_keeps(next, g.drop_last(), level, k, v);
    }
}

proof fn lemma_merge_descent_keeps<T>(
    m: Map<i32, Set<T>>,
    gens: Seq<Seq<RoseTreeNode<T>>>,
    level: int,
    k: i32,
    v: T,
)
    requires
        m.contains_key(k) && m[k].contains(v),
    ensures
        merge_descent(m, gens, level).contains_key(k) && merge_descent(m, gens, level)[k].contains(v),
    decreases gens.len(),
{
    if gens.len() > 0 {
        let next = merge_generation(m, gens[0], level);
        lemma_merge_generation_keeps(m, gens[0], level, k, v);
        lemma_merge_descent_keeps(next, gens.drop_first(), level + 1, k, v);
    }
}

/// Merging levels in puts `levels[k]` at level `top - (k + 1)`.
proof fn lemma_merge_levels_holds<T>(m: Map<i32, Set<T>>, levels: Seq<Seq<T>>, top: int, k: int, v: T)
    requires
        0 <= k < levels.len(),
        levels[k].contains(v),
        i32::MIN <= top - levels.len(),
        top - 1 <= i32::MAX,
    ensures
        merge_levels(m, levels, top).contains_key((top - (k + 1)) as i32),
        merge_levels(m, levels, top)[(top - (k + 1)) as i32].contains(v),
    decreases levels.len(),
{
    let next = add_to_level(m, (top - levels.len()) as i32, levels.last().to_set());
    if k == levels.len() - 1 {
        assert(levels.last().to_set().contains(v));
        assert(next.contains_key((top - (k + 1)) as i32) && next[(top - (k + 1)) as i32].contains(v));
        lemma_merge_levels_keeps(next, levels.drop_last(), top, (top - (k + 1)) as i32, v);
    } else {
        assert(levels.drop_last()[k] == levels[k]);
        lemma_merge_levels_holds(next, levels.drop_last(), top, k, v);
    }
}

/// Merging a generation at `level` puts the ancestors of each of its nodes
/// `d + 1` levels above it at level `level - (d + 1)`.
proof fn lemma_merge_generation_holds<T>(
    m: Map<i32, Set<T>>,
    g: Seq<RoseTreeNode<T>>,
    level: int,
    j: int,
    d: int,
    v: T,
)
    requires
        0 <= j < g.len(),
        0 <= d < ancestry(g[j].parents@).len(),
        ancestry(g[j].parents@)[d].contains(v),
        i32::MIN <= level - ancestry(g[j].parents@).len(),
        level - 1 <= i32::MAX,
    ensures
        merge_generation(m, g, level).contains_key((level - (d + 1)) as i32),
        merge_generation(m, g, level)[(level - (d + 1)) as i32].contains(v),
    decreases g.len(),
{
    let next = merge_levels(m, ancestry(g.last().parents@), level);
    if j == g.len() - 1 {
        lemma_merge_levels_holds(m, ancestry(g.last().parents@), level, d, v);
        lemma_merge_generation_keeps(next, g.drop_last(), level, (level - (d + 1)) as i32, v);
    } else {
        assert(g.drop_last()[j] == g[j]);
        lemma_merge_generation_holds(next, g.drop_last(), level, j, d, v);
    }
}

/// Merging generations, the first at `level`, puts the ancestors of a node
/// of generation `i`, `d + 1` levels above it, at level
/// `level + i - (d + 1)`.
proof fn lemma_merge_descent_holds<T>(
    m: Map<i32, Set<T>>,
    gens: Seq<Seq<RoseTreeNode<T>>>,
    level: int,
    i: int,
    j: int,
    d: int,
    v: T,
)
    requires
        0 <= i < gens.len(),
        0 <= j < gens[i].len(),
        0 <= d < ancestry(gens[i][j].parents@).len(),
        ancestry(gens[i][j].parents@)[d].contains(v),
        i32::MIN <= level + i - ancestry(gens[i][j].parents@).len(),
        level + i - 1 <= i32::MAX,
    ensures
        merge_descent(m, gens, level).contains_key((level + i - (d + 1)) as i32),
        merge_descent(m, gens, level)[(level + i - (d + 1)) as i32].contains(v),
    decreases gens.len(),
{
    let next = merge_generation(m, gens[0], level);
    if i == 0 {
        lemma_merge_generation_holds(m, gens[0], level, j, d, v);
        lemma_merge_descent_keeps(next, gens.drop_first(), level + 1, (level + i - (d + 1)) as i32, v);
    } else {
        assert(gens.drop_first()[i - 1] == gens[i]);
        lemma_merge_descent_holds(next, gens.drop_first(), level + 1, i - 1, j, d, v);
    }
}

/// `children_by_level` merges the ancestors of every descendant relative to
/// the descendant's own level (see its contract): for a node of generation
/// `i` below the children (level `i + 1`), an ancestor `d + 1` levels above
/// it lands at level `(i + 1) - (d + 1)` of the parent levels.
pub proof fn lemma_children_by_level_merges_ancestors<T>(
    node: RoseTreeNode<T>,
    parents_by_level: Map<i32, Set<T>>,
    i: int,
    j: int,
    d: int,
    v: T,
)
    requires
        descent_fits(node.children@),
        0 <= i < descent(node.children@).len(),
        0 <= j < descent(node.children@)[i].len(),
        0 <= d < ancestry(descent(node.children@)[i][j].parents@).len(),
        ancestry(descent(node.children@)[i][j].parents@)[d].contains(v),
    ensures
        merge_descent(parents_by_level, descent(node.children@), 1).contains_key((i - d) as i32),
        merge_descent(parents_by_level, descent(node.children@), 1)[(i - d) as i32].contains(v),
{
    let gens = descent(node.children@);
    assert(ancestry(gens[i][j].parents@).len() <= i32::MAX);
    lemma_merge_descent_holds(parents_by_level, gens, 1, i, j, d, v);
    assert((1 + i - (d + 1)) as i32 == (i - d) as i32);
}

/// Adding child levels only adds values: what a level held, it still holds.
proof fn lemma_add_child_levels_keeps<T>(m: Map<i32, Set<T>>, levels: Seq<Seq<T>>, k: i32, v: T)
    requires
        m.contains_key(k) && m[k].contains(v),
    ensures
        add_child_levels(m, levels).contains_key(k) && add_child_levels(m, levels)[k].contains(v),
    decreases levels.len(),
{
    if levels.len() > 0 {
        let next = add_to_level(m, levels.len() as i32, levels.last().to_set());
        assert(next.contains_key(k) && next[k].contains(v));
        lemma_add_child_levels_keeps(next, levels.drop_last(), k, v);
    }
}

/// Adding child levels puts every value of `levels[i]` at level `i + 1`.
proof fn lemma_add_child_levels_holds<T>(m: Map<i32, Set<T>>, levels: Seq<Seq<T>>, i: int, v: T)
    requires
        0 <= i < levels.len(),
        levels.len() <= i32::MAX,
        levels[i].contains(v),
    ensures
        add_child_levels(m, levels).contains_key((i + 1) as i32),
        add_child_levels(m, levels)[(i + 1) as i32].contains(v),
    decreases levels.len(),
{
    let next = add_to_level(m, levels.len() as i32, levels.last().to_set());
    if i == levels.len() - 1 {
        assert(levels.last().to_set().contains(v));
        assert(next.contains_key((i + 1) as i32) && next[(i + 1) as i32].contains(v));
        lemma_add_child_levels_keeps(next, levels.drop_last(), (i + 1) as i32, v);
    } else {
        assert(levels.drop_last()[i] == levels[i]);
        lemma_add_child_levels_holds(next, levels.drop_last(), i, v);
    }
}

/// `nodes_by_level` always has the node's own value at level `0`.
pub proof fn lemma_node_at_level_zero<T>(node: RoseTreeNode<T>)
    ensures
        nodes_by_level_spec(node).contains_key(0),
        nodes_by_level_spec(node)[0].contains(node.value),
{
    let start = Map::<i32, Set<T>>::empty().insert(0, set![node.value]);
    let base = start.union_prefer_right(level_map(ancestry(node.parents@), false));
    assert(!level_map(ancestry(node.parents@), false).contains_key(0));
    assert(base.contains_key(0) && base[0] == set![node.value]);
    lemma_merge_descent_keeps(base, descent(node.children@), 1, 0, node.value);
    lemma_add_child_levels_keeps(
        merge_descent(base, descent(node.children@), 1),
        descent_values(node.children@),
        0,
        node.value,
    );
}

/// `nodes_by_level` collects all relations: every ancestor of the node sits
/// at its level (`-1` for parents, ...), and every descendant at its level
/// (`1` for children, ...), next to whatever else was collected there.
pub proof fn lemma_nodes_by_level_collects<T>(node: RoseTreeNode<T>, k: int, v: T)
    requires
        ancestry(node.parents@).len() <= 0x8000_0000,
        descent_fits(node.children@),
    ensures
        0 <= k < ancestry(node.parents@).len() && ancestry(node.parents@)[k].contains(v)
            ==> nodes_by_level_spec(node).contains_key(-(k + 1) as i32) && nodes_by_level_spec(
            node,
        )[-(k + 1) as i32].contains(v),
        0 <= k < descent_values(node.children@).len() && descent_values(node.children@)[k].contains(v)
            ==> nodes_by_level_spec(node).contains_key((k + 1) as i32) && nodes_by_level_spec(
            node,
        )[(k + 1) as i32].contains(v),
{
    let anc = ancestry(node.parents@);
    let start = Map::<i32, Set<T>>::empty().insert(0, set![node.value]);
    let lm = level_map(anc, false);
    let base = start.union_prefer_right(lm);
    let merged = merge_descent(base, descent(node.children@), 1);
    let dv = descent_values(node.children@);
    if 0 <= k < anc.len() && anc[k].contains(v) {
        let key = -(k + 1) as i32;
        assert(key as int == -(k + 1));
        assert(lm.contains_key(key));
        assert(lm[key] == anc[k].to_set());
        assert(base.contains_key(key) && base[key].contains(v));
        lemma_merge_descent_keeps(base, descent(node.children@), 1, key, v);
        lemma_add_child_levels_keeps(merged, dv, key, v);
    }
    if 0 <= k < dv.len() && dv[k].contains(v) {
        assert(dv.len() == descent(node.children@).len());
        lemma_add_child_levels_holds(merged, dv, k, v);
    }
}

/// `nodes_by_level` holds what `parents_by_level` and `children_by_level`
/// give for the node (see their contracts): a value at some level of either
/// sits at that level of `nodes_by_level` too.
pub proof fn lemma_nodes_by_level_holds_levels<T>(node: RoseTreeNode<T>, k: i32, v: T)
    requires
        ancestry(node.parents@).len() <= 0x8000_0000,
        descent_fits(node.children@),
    ensures
        level_map(ancestry(node.parents@), false).contains_key(k) && level_map(
            ancestry(node.parents@),
            false,
        )[k].contains(v) ==> nodes_by_level_spec(node).contains_key(k) && nodes_by_level_spec(
            node,
        )[k].contains(v),
        level_map(descent_values(node.children@), true).contains_key(k) && level_map(
            descent_values(node.children@),
            true,
        )[k].contains(v) ==> nodes_by_level_spec(node).contains_key(k) && nodes_by_level_spec(
            node,
        )[k].contains(v),
{
    let anc = ancestry(node.parents@);
    let dv = descent_values(node.children@);
    if level_map(anc, false).contains_key(k) && level_map(anc, false)[k].contains(v) {
        let j = -k - 1;
        assert(anc[j].to_set().contains(v));
        lemma_nodes_by_level_collects(node, j, v);
        assert(-(j + 1) as i32 == k);
    }
    if level_map(dv, true).contains_key(k) && level_map(dv, true)[k].contains(v) {
        let j = k - 1;
        assert(dv[j].to_set().contains(v));
        lemma_nodes_by_level_collects(node, j, v);
        assert((j + 1) as i32 == k);
    }
}

/// `children_by_level` only adds to the parent levels it is given: what a
/// level held before, it still holds.
pub proof fn lemma_children_by_level_only_adds<T>(
    node: RoseTreeNode<T>,
    parents_by_level: Map<i32, Set<T>>,
    k: i32,
    v: T,
)
    requires
        parents_by_level.contains_key(k),
        parents_by_level[k].contains(v),
    ensures
        merge_descent(parents_by_level, descent(node.children@), 1).contains_key(k),
        merge_descent(parents_by_level, descent(node.children@), 1)[k].contains(v),
{
    lemma_merge_descent_keeps(parents_by_level, descent(node.children@), 1, k, v);
}

/// A node without parents has no parent levels.
pub proof fn lemma_no_parents_no_levels<T>(node: RoseTreeNode<T>)
    requires
        node.parents@.len() == 0,
    ensures
        level_map(ancestry(node.parents@), false) == Map::<i32, Set<T>>::empty(),
{
    assert(ancestry(node.parents@) == Seq::<Seq<T>>::empty());
    assert(level_map(ancestry(node.parents@), false) =~= Map::<i32, Set<T>>::empty());
}

/// A node without children has no child levels, and leaves the parent
/// levels it is given as they are.
pub proof fn lemma_no_children_no_levels<T>(node: RoseTreeNode<T>, parents_by_level: Map<i32, Set<T>>)
    requires
        node.children@.len() == 0,
    ensures
        level_map(descent_values(node.children@), true) == Map::<i32, Set<T>>::empty(),
        merge_descent(parents_by_level, descent(node.children@), 1) == parents_by_level,
{
    assert(descent(node.children@) == Seq::<Seq<RoseTreeNode<T>>>::empty());
    assert(descent_values(node.children@) =~= Seq::<Seq<T>>::empty());
    assert(level_map(descent_values(node.children@), true) =~= Map::<i32, Set<T>>::empty());
}

} // verus!
