//! Traversals of an adjacency table: what can be reached, and by which
//! shortest chain.
use crate::errors::GrimpError;
use crate::graph::{
    adjacency_view, closed_adjacency, holds_token, insert_token, targets_under, tokens_of, Graph,
    ModuleToken,
};
use rustc_hash::{FxHashMap, FxHashSet};
use vstd::prelude::*;

verus! {

/// Whether `walk` follows edges of the table from its first token to its
/// last. A single token is a walk without edges.
pub open spec fn is_walk(adjacency: Seq<Set<ModuleToken>>, walk: Seq<ModuleToken>) -> bool {
    &&& walk.len() >= 1
    &&& forall|i: int|
        0 <= i < walk.len() - 1 ==> (#[trigger] walk[i]) < adjacency.len()
            && adjacency[walk[i] as int].contains(walk[i + 1])
}

/// Whether some walk leads from `from` to `to`.
pub open spec fn reaches(adjacency: Seq<Set<ModuleToken>>, from: ModuleToken, to: ModuleToken) -> bool {
    exists|walk: Seq<ModuleToken>|
        #[trigger] is_walk(adjacency, walk) && walk[0] == from && walk.last() == to
}

/// What can be reached from the seeds: every token to which a walk leads
/// from a seed other than itself. A seed is among them only if another
/// seed reaches it.
pub open spec fn reach(adjacency: Seq<Set<ModuleToken>>, seeds: Set<ModuleToken>) -> Set<ModuleToken> {
    Set::new(
        |t: ModuleToken|
            exists|s: ModuleToken| seeds.contains(s) && s != t && #[trigger] reaches(adjacency, s, t),
    )
}

/// More seeds reach no less.
pub proof fn lemma_reach_monotonic(
    adjacency: Seq<Set<ModuleToken>>,
    fewer: Set<ModuleToken>,
    more: Set<ModuleToken>,
)
    requires
        fewer.subset_of(more),
    ensures
        reach(adjacency, fewer).subset_of(reach(adjacency, more)),
{
    assert forall|t: ModuleToken| reach(adjacency, fewer).contains(t) implies reach(
        adjacency,
        more,
    ).contains(t) by {
        let s = choose|s: ModuleToken|
            fewer.contains(s) && s != t && #[trigger] reaches(adjacency, s, t);
        assert(more.contains(s));
    }
}

/// A walk can be extended by one edge.
proof fn lemma_walk_extend(adjacency: Seq<Set<ModuleToken>>, walk: Seq<ModuleToken>, next: ModuleToken)
    requires
        is_walk(adjacency, walk),
        walk.last() < adjacency.len(),
        adjacency[walk.last() as int].contains(next),
    ensures
        is_walk(adjacency, walk.push(next)),
        walk.push(next)[0] == walk[0],
        walk.push(next).last() == next,
{
    let longer = walk.push(next);
    assert forall|i: int| 0 <= i < longer.len() - 1 implies (#[trigger] longer[i]) < adjacency.len()
        && adjacency[longer[i] as int].contains(longer[i + 1]) by {
        if i < walk.len() - 1 {
            assert(longer[i] == walk[i]);
            assert(longer[i + 1] == walk[i + 1]);
        }
    }
}

/// Reaching is transitive over one more edge.
proof fn lemma_reaches_step(
    adjacency: Seq<Set<ModuleToken>>,
    from: ModuleToken,
    middle: ModuleToken,
    to: ModuleToken,
)
    requires
        reaches(adjacency, from, middle),
        middle < adjacency.len(),
        adjacency[middle as int].contains(to),
    ensures
        reaches(adjacency, from, to),
{
    let walk = choose|walk: Seq<ModuleToken>|
        #[trigger] is_walk(adjacency, walk) && walk[0] == from && walk.last() == middle;
    lemma_walk_extend(adjacency, walk, to);
    assert(is_walk(adjacency, walk.push(to)));
}

/// Every token reaches itself.
proof fn lemma_reaches_self(adjacency: Seq<Set<ModuleToken>>, token: ModuleToken)
    ensures
        reaches(adjacency, token, token),
{
    let walk = seq![token];
    assert(is_walk(adjacency, walk));
    assert(walk[0] == token && walk.last() == token);
}

/// Distinct tokens below a bound are no more than the bound.
proof fn lemma_distinct_bounded(tokens: Seq<ModuleToken>, bound: nat)
    requires
        tokens.no_duplicates(),
        forall|i: int| 0 <= i < tokens.len() ==> tokens[i] < bound,
    ensures
        tokens.len() <= bound,
    decreases bound,
{
    if tokens.len() > 0 {
        if bound == 0 {
            assert(tokens[0] < bound);
        } else {
            let top = (bound - 1) as usize;
            if exists|k: int| 0 <= k < tokens.len() && tokens[k] == top {
                let k = choose|k: int| 0 <= k < tokens.len() && tokens[k] == top;
                let rest = tokens.remove(k);
                assert forall|i: int| 0 <= i < rest.len() implies rest[i] < bound - 1 by {
                    if i < k {
                        assert(rest[i] == tokens[i]);
                    } else {
                        assert(rest[i] == tokens[i + 1]);
                    }
                }
                assert(rest.no_duplicates()) by {
                    assert forall|i: int, j: int|
                        0 <= i < rest.len() && 0 <= j < rest.len() && i != j implies rest[i]
                        != rest[j] by {
                        let oi = if i < k { i } else { i + 1 };
                        let oj = if j < k { j } else { j + 1 };
                        assert(rest[i] == tokens[oi]);
                        assert(rest[j] == tokens[oj]);
                    }
                }
                lemma_distinct_bounded(rest, (bound - 1) as nat);
            } else {
                assert forall|i: int| 0 <= i < tokens.len() implies tokens[i] < bound - 1 by {
                    assert(tokens[i] < bound);
                }
                lemma_distinct_bounded(tokens, (bound - 1) as nat);
            }
        }
    }
}

/// Adding a token that a list lacks keeps the list free of repetition.
proof fn lemma_push_distinct(list: Seq<ModuleToken>, token: ModuleToken)
    requires
        list.no_duplicates(),
        !list.contains(token),
    ensures
        list.push(token).no_duplicates(),
        forall|x: ModuleToken| #[trigger]
            list.push(token).contains(x) <==> list.contains(x) || x == token,
{
    let longer = list.push(token);
    assert forall|a: int, b: int| 0 <= a < longer.len() && 0 <= b < longer.len() && a != b implies longer[a]
        != longer[b] by {
        if a < list.len() {
            assert(list.contains(list[a]));
        }
        if b < list.len() {
            assert(list.contains(list[b]));
        }
    }
    assert forall|x: ModuleToken| #[trigger]
        longer.contains(x) <==> list.contains(x) || x == token by {
        if list.contains(x) {
            let k = choose|k: int| 0 <= k < list.len() && list[k] == x;
            assert(longer[k] == x);
        }
        if x == token {
            assert(longer[list.len() as int] == x);
        }
        if longer.contains(x) {
            let k = choose|k: int| 0 <= k < longer.len() && longer[k] == x;
            if k < list.len() {
                assert(list[k] == x);
            }
        }
    }
}

/// Whether the token carries the label, as its first or second.
spec fn has_label(
    first: Seq<Option<ModuleToken>>,
    second: Seq<Option<ModuleToken>>,
    token: ModuleToken,
    label: ModuleToken,
) -> bool {
    first[token as int] == Some(label) || second[token as int] == Some(label)
}

/// Whether the labels are such as the search keeps them: a label is a seed
/// that reaches the token, a second label comes after a first and differs
/// from it, and every seed of the table carries itself as its first label.
spec fn labels_sound(
    adjacency: Seq<Set<ModuleToken>>,
    seeds: Set<ModuleToken>,
    first: Seq<Option<ModuleToken>>,
    second: Seq<Option<ModuleToken>>,
) -> bool {
    &&& first.len() == adjacency.len()
    &&& second.len() == adjacency.len()
    &&& forall|x: ModuleToken, l: ModuleToken|
        x < first.len() && #[trigger] has_label(first, second, x, l) ==> seeds.contains(l)
            && reaches(adjacency, l, x)
    &&& forall|x: ModuleToken|
        x < first.len() && (#[trigger] second[x as int]) is Some ==> first[x as int] is Some
            && first[x as int] != second[x as int]
    &&& forall|s: ModuleToken|
        s < first.len() && #[trigger] seeds.contains(s) ==> first[s as int] == Some(s)
}

/// Whether the label of `token` has been handed on to all its neighbours:
/// each carries it, or carries two labels already.
spec fn label_spread(
    adjacency: Seq<Set<ModuleToken>>,
    first: Seq<Option<ModuleToken>>,
    second: Seq<Option<ModuleToken>>,
    token: ModuleToken,
    label: ModuleToken,
) -> bool {
    forall|y: ModuleToken| #[trigger]
        adjacency[token as int].contains(y) ==> has_label(first, second, y, label)
            || second[y as int] is Some
}

/// Once every label is spread, a token that a seed reaches carries a label
/// other than any given one that is not that seed.
proof fn lemma_labels_complete(
    adjacency: Seq<Set<ModuleToken>>,
    seeds: Set<ModuleToken>,
    first: Seq<Option<ModuleToken>>,
    second: Seq<Option<ModuleToken>>,
    walk: Seq<ModuleToken>,
    other: ModuleToken,
)
    requires
        closed_adjacency(adjacency),
        labels_sound(adjacency, seeds, first, second),
        forall|x: ModuleToken, l: ModuleToken|
            x < first.len() && #[trigger] has_label(first, second, x, l) ==> label_spread(
                adjacency,
                first,
                second,
                x,
                l,
            ),
        is_walk(adjacency, walk),
        seeds.contains(walk[0]),
        walk[0] < adjacency.len(),
        walk[0] != other,
    ensures
        walk.last() < adjacency.len(),
        exists|l: ModuleToken| l != other && #[trigger] has_label(first, second, walk.last(), l),
    decreases walk.len(),
{
    if walk.len() == 1 {
        assert(walk.last() == walk[0]);
        assert(first[walk[0] as int] == Some(walk[0]));
        assert(walk[0] != other && has_label(first, second, walk.last(), walk[0]));
    } else {
        let shorter = walk.drop_last();
        assert(is_walk(adjacency, shorter)) by {
            assert forall|i: int| 0 <= i < shorter.len() - 1 implies (#[trigger] shorter[i])
                < adjacency.len() && adjacency[shorter[i] as int].contains(shorter[i + 1]) by {
                assert(shorter[i] == walk[i]);
                assert(shorter[i + 1] == walk[i + 1]);
            }
        }
        lemma_labels_complete(adjacency, seeds, first, second, shorter, other);
        let middle = shorter.last();
        let end = walk.last();
        assert(middle == walk[walk.len() - 2]);
        assert(adjacency[middle as int].contains(end));
        let l = choose|l: ModuleToken| l != other && #[trigger] has_label(first, second, middle, l);
        assert(label_spread(adjacency, first, second, middle, l));
        assert(end < adjacency.len());
        if has_label(first, second, end, l) {
            assert(l != other && has_label(first, second, walk.last(), l));
        } else {
            assert(second[end as int] is Some);
            let l1 = first[end as int]->0;
            let l2 = second[end as int]->0;
            assert(first[end as int] is Some && l1 != l2);
            if l1 != other {
                assert(l1 != other && has_label(first, second, walk.last(), l1));
            } else {
                assert(l2 != other && has_label(first, second, walk.last(), l2));
            }
        }
    }
}

/// Everything that the seeds reach by following edges of the table. The
/// seeds themselves are left out, but for those that another seed reaches.
pub fn find_reach(adjacency: &Vec<FxHashSet<ModuleToken>>, from_modules: &FxHashSet<ModuleToken>) -> (reached:
    FxHashSet<ModuleToken>)
    requires
        closed_adjacency(adjacency_view(adjacency@)),
    ensures
        reached@ == reach(adjacency_view(adjacency@), from_modules@),
{
    let ghost table = adjacency_view(adjacency@);
    let ghost seeds = from_modules@;
    let count = adjacency.len();
    let mut first: Vec<Option<ModuleToken>> = Vec::new();
    let mut second: Vec<Option<ModuleToken>> = Vec::new();
    let mut i: usize = 0;
    while i < count
        invariant
            i <= count,
            first@.len() == i,
            second@.len() == i,
            forall|x: int| 0 <= x < i ==> first@[x] is None && second@[x] is None,
        decreases count - i,
    {
        first.push(None);
        second.push(None);
        i = i + 1;
    }
    // Every seed of the table starts out carrying itself.
    let mut pending_first: Vec<ModuleToken> = Vec::new();
    let mut pending_second: Vec<ModuleToken> = Vec::new();
    let seed_list = tokens_of(from_modules);
    let mut i: usize = 0;
    while i < seed_list.len()
        invariant
            i <= seed_list.len(),
            count == adjacency@.len(),
            table == adjacency_view(adjacency@),
            seeds == from_modules@,
            seed_list@.to_set() == seeds,
            seed_list@.no_duplicates(),
            first@.len() == count,
            second@.len() == count,
            forall|x: int| 0 <= x < count ==> second@[x] is None,
            forall|x: int|
                0 <= x < count ==> (#[trigger] first@[x] == if exists|k: int|
                    0 <= k < i && seed_list@[k] == x {
                    Some(x as usize)
                } else {
                    None
                }),
            pending_first@.no_duplicates(),
            forall|k: int| 0 <= k < pending_first@.len() ==> pending_first@[k] < count,
            forall|x: ModuleToken|
                x < count ==> (#[trigger] first@[x as int] is Some <==> pending_first@.contains(x)),
        decreases seed_list.len() - i,
    {
        let seed = seed_list[i];
        if seed < count {
            let ghost old_pending = pending_first@;
            assert(first@[seed as int] is None) by {
                if exists|k: int| 0 <= k < i && seed_list@[k] == seed {
                    let k = choose|k: int| 0 <= k < i && seed_list@[k] == seed;
                    assert(seed_list@[k] == seed_list@[i as int]);
                }
            }
            first.set(seed, Some(seed));
            pending_first.push(seed);
            proof {
                lemma_push_distinct(old_pending, seed);
            }
        }
        assert forall|x: int| 0 <= x < count implies (#[trigger] first@[x] == if exists|k: int|
            0 <= k < i + 1 && seed_list@[k] == x {
            Some(x as usize)
        } else {
            None
        }) by {
            if exists|k: int| 0 <= k < i && seed_list@[k] == x {
                let k = choose|k: int| 0 <= k < i && seed_list@[k] == x;
                assert(0 <= k < i + 1 && seed_list@[k] == x);
            }
            if x == seed {
                assert(seed_list@[i as int] == x);
            }
        }
        i = i + 1;
    }
    proof {
        assert forall|x: ModuleToken, l: ModuleToken|
            x < count && #[trigger] has_label(first@, second@, x, l) implies seeds.contains(l)
            && reaches(table, l, x) by {
            assert(first@[x as int] is Some);
            let k = choose|k: int| 0 <= k < seed_list@.len() && seed_list@[k] == x;
            assert(seed_list@.to_set().contains(seed_list@[k]));
            lemma_reaches_self(table, x);
        }
        lemma_distinct_bounded(pending_first@, count as nat);
        assert forall|s: ModuleToken| s < count && #[trigger] seeds.contains(s) implies first@[s as int]
            == Some(s) by {
            assert(seed_list@.to_set().contains(s));
            assert(seed_list@.contains(s));
        }
    }
    let mut head_first: usize = 0;
    let mut head_second: usize = 0;
    while head_first < pending_first.len() || head_second < pending_second.len()
        invariant
            count == adjacency@.len(),
            table == adjacency_view(adjacency@),
            closed_adjacency(table),
            seeds == from_modules@,
            labels_sound(table, seeds, first@, second@),
            head_first <= pending_first@.len() <= count,
            head_second <= pending_second@.len() <= count,
            pending_first@.no_duplicates(),
            pending_second@.no_duplicates(),
            forall|k: int| 0 <= k < pending_first@.len() ==> pending_first@[k] < count,
            forall|k: int| 0 <= k < pending_second@.len() ==> pending_second@[k] < count,
            forall|x: ModuleToken|
                x < count ==> (#[trigger] first@[x as int] is Some <==> pending_first@.contains(x)),
            forall|x: ModuleToken|
                x < count ==> (#[trigger] second@[x as int] is Some <==> pending_second@.contains(
                    x,
                )),
            forall|k: int|
                0 <= k < head_first ==> label_spread(
                    table,
                    first@,
                    second@,
                    #[trigger] pending_first@[k],
                    first@[pending_first@[k] as int]->0,
                ),
            forall|k: int|
                0 <= k < head_second ==> label_spread(
                    table,
                    first@,
                    second@,
                    #[trigger] pending_second@[k],
                    second@[pending_second@[k] as int]->0,
                ),
        decreases (count - head_first) + (count - head_second),
    {
        let from_first = head_first < pending_first.len();
        let token = if from_first {
            pending_first[head_first]
        } else {
            pending_second[head_second]
        };
        proof {
            if from_first {
                assert(pending_first@.contains(pending_first@[head_first as int]));
            } else {
                assert(pending_second@.contains(pending_second@[head_second as int]));
            }
        }
        let label = if from_first {
            first[token].unwrap()
        } else {
            second[token].unwrap()
        };
        assert(has_label(first@, second@, token, label));
        let neighbours = tokens_of(&adjacency[token]);
        assert(neighbours@.to_set() == table[token as int]);
        let mut j: usize = 0;
        while j < neighbours.len()
            invariant
                j <= neighbours@.len(),
                token < count,
                count == adjacency@.len(),
                table == adjacency_view(adjacency@),
                closed_adjacency(table),
                neighbours@.to_set() == table[token as int],
                seeds == from_modules@,
                labels_sound(table, seeds, first@, second@),
                has_label(first@, second@, token, label),
                from_first ==> head_first < pending_first@.len() && pending_first@[head_first as int]
                    == token && first@[token as int] == Some(label),
                !from_first ==> head_second < pending_second@.len()
                    && pending_second@[head_second as int] == token && second@[token as int]
                    == Some(label),
                head_first <= pending_first@.len(),
                head_second <= pending_second@.len(),
                pending_first@.no_duplicates(),
                pending_second@.no_duplicates(),
                forall|k: int| 0 <= k < pending_first@.len() ==> pending_first@[k] < count,
                forall|k: int| 0 <= k < pending_second@.len() ==> pending_second@[k] < count,
                forall|x: ModuleToken|
                    x < count ==> (#[trigger] first@[x as int] is Some <==> pending_first@.contains(
                        x,
                    )),
                forall|x: ModuleToken|
                    x < count ==> (#[trigger] second@[x as int] is Some
                        <==> pending_second@.contains(x)),
                forall|k: int|
                    0 <= k < head_first ==> label_spread(
                        table,
                        first@,
                        second@,
                        #[trigger] pending_first@[k],
                        first@[pending_first@[k] as int]->0,
                    ),
                forall|k: int|
                    0 <= k < head_second ==> label_spread(
                        table,
                        first@,
                        second@,
                        #[trigger] pending_second@[k],
                        second@[pending_second@[k] as int]->0,
                    ),
                forall|k: int|
                    0 <= k < j ==> has_label(first@, second@, #[trigger] neighbours@[k], label)
                        || second@[neighbours@[k] as int] is Some,
            decreases neighbours.len() - j,
        {
            let next = neighbours[j];
            assert(neighbours@.to_set().contains(neighbours@[j as int]));
            assert(table[token as int].contains(next));
            assert(next < count);
            let ghost old_first = first@;
            let ghost old_second = second@;
            let ghost old_pending_first = pending_first@;
            let ghost old_pending_second = pending_second@;
            let mut recorded_first = false;
            let mut recorded_second = false;
            match first[next] {
                None => {
                    first.set(next, Some(label));
                    pending_first.push(next);
                    recorded_first = true;
                },
                Some(present) => {
                    if present != label && second[next].is_none() {
                        second.set(next, Some(label));
                        pending_second.push(next);
                        recorded_second = true;
                    }
                },
            }
            proof {
                // Labels are added, never changed.
                assert forall|x: ModuleToken, l: ModuleToken|
                    x < count && has_label(old_first, old_second, x, l) implies has_label(
                    first@,
                    second@,
                    x,
                    l,
                ) by {}
                assert forall|x: ModuleToken|
                    x < count && old_second[x as int] is Some implies second@[x as int] is Some by {}
                assert(has_label(old_first, old_second, token, label));
                assert(reaches(table, label, token));
                lemma_reaches_step(table, label, token, next);
                assert(labels_sound(table, seeds, first@, second@)) by {
                    assert forall|x: ModuleToken, l: ModuleToken|
                        x < first@.len() && #[trigger] has_label(first@, second@, x, l) implies seeds.contains(
                        l,
                    ) && reaches(table, l, x) by {
                        if has_label(old_first, old_second, x, l) {
                        } else {
                            assert(x == next && l == label);
                        }
                    }
                    assert forall|s: ModuleToken|
                        s < first@.len() && #[trigger] seeds.contains(s) implies first@[s as int]
                        == Some(s) by {
                        assert(old_first[s as int] == Some(s));
                    }
                }
                if recorded_first {
                    lemma_push_distinct(old_pending_first, next);
                }
                if recorded_second {
                    lemma_push_distinct(old_pending_second, next);
                }
                assert forall|k: int| 0 <= k < head_first implies label_spread(
                    table,
                    first@,
                    second@,
                    #[trigger] pending_first@[k],
                    first@[pending_first@[k] as int]->0,
                ) by {
                    let x = old_pending_first[k];
                    assert(pending_first@[k] == x);
                    assert(old_pending_first.contains(x));
                    assert(label_spread(table, old_first, old_second, x, old_first[x as int]->0));
                    assert(first@[x as int] == old_first[x as int]);
                    assert forall|y: ModuleToken| #[trigger]
                        table[x as int].contains(y) implies has_label(
                        first@,
                        second@,
                        y,
                        first@[x as int]->0,
                    ) || second@[y as int] is Some by {
                        assert(y < count);
                        assert(has_label(old_first, old_second, y, old_first[x as int]->0)
                            || old_second[y as int] is Some);
                    }
                }
                assert forall|k: int| 0 <= k < head_second implies label_spread(
                    table,
                    first@,
                    second@,
                    #[trigger] pending_second@[k],
                    second@[pending_second@[k] as int]->0,
                ) by {
                    let x = old_pending_second[k];
                    assert(pending_second@[k] == x);
                    assert(old_pending_second.contains(x));
                    assert(label_spread(table, old_first, old_second, x, old_second[x as int]->0));
                    assert(second@[x as int] == old_second[x as int]);
                    assert forall|y: ModuleToken| #[trigger]
                        table[x as int].contains(y) implies has_label(
                        first@,
                        second@,
                        y,
                        second@[x as int]->0,
                    ) || second@[y as int] is Some by {
                        assert(y < count);
                        assert(has_label(old_first, old_second, y, old_second[x as int]->0)
                            || old_second[y as int] is Some);
                    }
                }
                assert forall|k: int| 0 <= k < j + 1 implies has_label(
                    first@,
                    second@,
                    #[trigger] neighbours@[k],
                    label,
                ) || second@[neighbours@[k] as int] is Some by {
                    assert(neighbours@.to_set().contains(neighbours@[k]));
                    assert(neighbours@[k] < count);
                    if k < j {
                        assert(has_label(old_first, old_second, neighbours@[k], label)
                            || old_second[neighbours@[k] as int] is Some);
                    }
                }
            }
            j = j + 1;
        }
        proof {
            assert(label_spread(table, first@, second@, token, label)) by {
                assert forall|y: ModuleToken| #[trigger]
                    table[token as int].contains(y) implies has_label(first@, second@, y, label)
                    || second@[y as int] is Some by {
                    assert(neighbours@.to_set().contains(y));
                    assert(neighbours@.contains(y));
                    let k = choose|k: int| 0 <= k < neighbours@.len() && neighbours@[k] == y;
                    assert(has_label(first@, second@, neighbours@[k], label)
                        || second@[neighbours@[k] as int] is Some);
                }
            }
            lemma_distinct_bounded(pending_first@, count as nat);
            lemma_distinct_bounded(pending_second@, count as nat);
        }
        if from_first {
            head_first = head_first + 1;
        } else {
            head_second = head_second + 1;
        }
    }
    // What carries a label other than itself has been reached.
    let mut reached: FxHashSet<ModuleToken> = FxHashSet::default();
    let mut x: usize = 0;
    while x < count
        invariant
            x <= count,
            first@.len() == count,
            second@.len() == count,
            forall|t: ModuleToken| #[trigger]
                reached@.contains(t) <==> t < x && exists|l: ModuleToken|
                    l != t && #[trigger] has_label(first@, second@, t, l),
        decreases count - x,
    {
        let by_first = match first[x] {
            Some(l) => l != x,
            None => false,
        };
        let by_second = match second[x] {
            Some(l) => l != x,
            None => false,
        };
        if by_first || by_second {
            proof {
                if by_first {
                    assert(has_label(first@, second@, x, first@[x as int]->0));
                } else {
                    assert(has_label(first@, second@, x, second@[x as int]->0));
                }
            }
            insert_token(&mut reached, x);
        }
        x = x + 1;
    }
    proof {
        assert forall|x: ModuleToken, l: ModuleToken|
            x < first@.len() && #[trigger] has_label(first@, second@, x, l) implies label_spread(
            table,
            first@,
            second@,
            x,
            l,
        ) by {
            if first@[x as int] == Some(l) {
                assert(pending_first@.contains(x));
                let k = choose|k: int| 0 <= k < pending_first@.len() && pending_first@[k] == x;
                assert(label_spread(
                    table,
                    first@,
                    second@,
                    pending_first@[k],
                    first@[pending_first@[k] as int]->0,
                ));
            } else {
                assert(pending_second@.contains(x));
                let k = choose|k: int| 0 <= k < pending_second@.len() && pending_second@[k] == x;
                assert(label_spread(
                    table,
                    first@,
                    second@,
                    pending_second@[k],
                    second@[pending_second@[k] as int]->0,
                ));
            }
        }
        assert forall|t: ModuleToken| reached@.contains(t) == reach(table, seeds).contains(t) by {
            if reached@.contains(t) {
                let l = choose|l: ModuleToken| l != t && #[trigger] has_label(first@, second@, t, l);
                assert(seeds.contains(l) && reaches(table, l, t));
            }
            if reach(table, seeds).contains(t) {
                let s = choose|s: ModuleToken|
                    seeds.contains(s) && s != t && #[trigger] reaches(table, s, t);
                let walk = choose|walk: Seq<ModuleToken>|
                    #[trigger] is_walk(table, walk) && walk[0] == s && walk.last() == t;
                assert(walk.len() >= 2);
                assert(walk[0] < count);
                lemma_labels_complete(table, seeds, first@, second@, walk, t);
            }
        }
        assert(reached@ =~= reach(table, seeds));
    }
    reached
}

/// Whether the import of `imported` by `importer` is excluded.
pub open spec fn import_excluded(
    excluded_imports: Map<ModuleToken, FxHashSet<ModuleToken>>,
    importer: ModuleToken,
    imported: ModuleToken,
) -> bool {
    excluded_imports.contains_key(importer) && excluded_imports[importer]@.contains(imported)
}

/// The excluded imports, as a set of pairs of importer and imported.
pub open spec fn excluded_edges(excluded_imports: Map<ModuleToken, FxHashSet<ModuleToken>>) -> Set<
    (ModuleToken, ModuleToken),
> {
    Set::new(|edge: (ModuleToken, ModuleToken)| import_excluded(excluded_imports, edge.0, edge.1))
}

/// Whether `chain` is a chain of imports: at least one module, each a
/// token of the table and none excluded, and from each to the next an
/// import that is not excluded.
pub open spec fn is_chain(
    imports: Seq<Set<ModuleToken>>,
    excluded_modules: Set<ModuleToken>,
    excluded_imports: Set<(ModuleToken, ModuleToken)>,
    chain: Seq<ModuleToken>,
) -> bool {
    &&& chain.len() >= 1
    &&& forall|i: int|
        0 <= i < chain.len() ==> (#[trigger] chain[i]) < imports.len() && !excluded_modules.contains(
            chain[i],
        )
    &&& forall|i: int|
        0 <= i < chain.len() - 1 ==> imports[(#[trigger] chain[i]) as int].contains(chain[i + 1])
            && !excluded_imports.contains((chain[i], chain[i + 1]))
}

/// Whether `chain` starts in `from_modules` and ends in `to_modules`.
pub open spec fn connects(
    chain: Seq<ModuleToken>,
    from_modules: Set<ModuleToken>,
    to_modules: Set<ModuleToken>,
) -> bool {
    chain.len() >= 1 && from_modules.contains(chain[0]) && to_modules.contains(chain.last())
}

/// Whether `chain` is a connecting chain that no connecting chain is
/// shorter than.
pub open spec fn is_shortest_chain(
    imports: Seq<Set<ModuleToken>>,
    from_modules: Set<ModuleToken>,
    to_modules: Set<ModuleToken>,
    excluded_modules: Set<ModuleToken>,
    excluded_imports: Set<(ModuleToken, ModuleToken)>,
    chain: Seq<ModuleToken>,
) -> bool {
    &&& is_chain(imports, excluded_modules, excluded_imports, chain)
    &&& connects(chain, from_modules, to_modules)
    &&& forall|other: Seq<ModuleToken>|
        #[trigger] is_chain(imports, excluded_modules, excluded_imports, other) && connects(
            other,
            from_modules,
            to_modules,
        ) ==> chain.len() <= other.len()
}

/// Whether no chain connects `from_modules` to `to_modules`.
pub open spec fn no_chain(
    imports: Seq<Set<ModuleToken>>,
    from_modules: Set<ModuleToken>,
    to_modules: Set<ModuleToken>,
    excluded_modules: Set<ModuleToken>,
    excluded_imports: Set<(ModuleToken, ModuleToken)>,
) -> bool {
    forall|other: Seq<ModuleToken>|
        #[trigger] is_chain(imports, excluded_modules, excluded_imports, other) ==> !connects(
            other,
            from_modules,
            to_modules,
        )
}

/// Whether a set holds a token that the table lacks.
pub open spec fn holds_unknown(tokens: Set<ModuleToken>, count: nat) -> bool {
    exists|t: ModuleToken| #[trigger] tokens.contains(t) && t >= count
}

/// The state of a search by levels: which tokens have been found, at
/// which distance from the seeds, and from which token each was found.
struct Search {
    visited: Seq<bool>,
    parent: Seq<ModuleToken>,
    dist: Seq<nat>,
}

/// Whether the import may be followed in a search.
spec fn may_follow(
    table: Seq<Set<ModuleToken>>,
    excluded_modules: Set<ModuleToken>,
    excluded_imports: Set<(ModuleToken, ModuleToken)>,
    importer: ModuleToken,
    imported: ModuleToken,
) -> bool {
    &&& table[importer as int].contains(imported)
    &&& !excluded_imports.contains((importer, imported))
    &&& !excluded_modules.contains(imported)
}

/// Whether what the search has found is justified: every token found is
/// allowed and within `bound` of the seeds; at distance zero it is a seed,
/// and beyond it was found from a token one step nearer, over an import
/// that may be followed.
spec fn search_sound(
    table: Seq<Set<ModuleToken>>,
    from_modules: Set<ModuleToken>,
    excluded_modules: Set<ModuleToken>,
    excluded_imports: Set<(ModuleToken, ModuleToken)>,
    search: Search,
    bound: nat,
) -> bool {
    &&& search.visited.len() == table.len()
    &&& search.parent.len() == table.len()
    &&& search.dist.len() == table.len()
    &&& forall|x: ModuleToken|
        x < table.len() && #[trigger] search.visited[x as int] ==> {
            &&& !excluded_modules.contains(x)
            &&& search.dist[x as int] <= bound
            &&& search.dist[x as int] == 0 ==> from_modules.contains(x) && search.parent[x as int]
                == x
            &&& search.dist[x as int] > 0 ==> {
                let p = search.parent[x as int];
                &&& p < table.len()
                &&& search.visited[p as int]
                &&& search.dist[p as int] + 1 == search.dist[x as int]
                &&& may_follow(table, excluded_modules, excluded_imports, p, x)
            }
        }
}

/// Whether every allowed seed of the table has been found, at distance zero.
spec fn seeds_found(
    table: Seq<Set<ModuleToken>>,
    from_modules: Set<ModuleToken>,
    excluded_modules: Set<ModuleToken>,
    search: Search,
) -> bool {
    forall|s: ModuleToken|
        s < table.len() && #[trigger] from_modules.contains(s) && !excluded_modules.contains(s)
            ==> search.visited[s as int] && search.dist[s as int] == 0
}

/// Whether everything one step from `token` has been found, no farther
/// from the seeds than one step more than `token`.
spec fn expanded(
    table: Seq<Set<ModuleToken>>,
    excluded_modules: Set<ModuleToken>,
    excluded_imports: Set<(ModuleToken, ModuleToken)>,
    search: Search,
    token: ModuleToken,
) -> bool {
    forall|x: ModuleToken| #[trigger]
        may_follow(table, excluded_modules, excluded_imports, token, x) ==> search.visited[x as int]
            && search.dist[x as int] <= search.dist[token as int] + 1
}

/// Whether all tokens found nearer than `bound` are expanded.
spec fn expanded_below(
    table: Seq<Set<ModuleToken>>,
    excluded_modules: Set<ModuleToken>,
    excluded_imports: Set<(ModuleToken, ModuleToken)>,
    search: Search,
    bound: nat,
) -> bool {
    forall|y: ModuleToken|
        y < table.len() && #[trigger] search.visited[y as int] && search.dist[y as int] < bound
            ==> expanded(table, excluded_modules, excluded_imports, search, y)
}

/// A chain without its last module is a chain.
proof fn lemma_chain_prefix(
    table: Seq<Set<ModuleToken>>,
    excluded_modules: Set<ModuleToken>,
    excluded_imports: Set<(ModuleToken, ModuleToken)>,
    chain: Seq<ModuleToken>,
)
    requires
        is_chain(table, excluded_modules, excluded_imports, chain),
        chain.len() >= 2,
    ensures
        is_chain(table, excluded_modules, excluded_imports, chain.drop_last()),
        chain.drop_last()[0] == chain[0],
        chain.drop_last().last() == chain[chain.len() - 2],
        may_follow(
            table,
            excluded_modules,
            excluded_imports,
            chain[chain.len() - 2],
            chain.last(),
        ),
{
    let shorter = chain.drop_last();
    assert forall|i: int| 0 <= i < shorter.len() implies (#[trigger] shorter[i]) < table.len()
        && !excluded_modules.contains(shorter[i]) by {
        assert(shorter[i] == chain[i]);
    }
    assert forall|i: int| 0 <= i < shorter.len() - 1 implies table[(
    #[trigger] shorter[i]) as int].contains(shorter[i + 1]) && !excluded_imports.contains((shorter[i], shorter[i + 1])) by {
        assert(shorter[i] == chain[i]);
        assert(shorter[i + 1] == chain[i + 1]);
    }
    let last = chain.len() - 1;
    assert(chain[last] < table.len() && !excluded_modules.contains(chain[last]));
    assert(table[chain[last - 1] as int].contains(chain[last - 1 + 1]));
}

/// Where all tokens nearer than `bound` are expanded, a chain from a seed
/// of no more than `bound` imports ends at a token that has been found,
/// no farther from the seeds than the chain is long.
proof fn lemma_chain_found(
    table: Seq<Set<ModuleToken>>,
    from_modules: Set<ModuleToken>,
    excluded_modules: Set<ModuleToken>,
    excluded_imports: Set<(ModuleToken, ModuleToken)>,
    search: Search,
    bound: nat,
    chain: Seq<ModuleToken>,
)
    requires
        search.visited.len() == table.len(),
        search.dist.len() == table.len(),
        seeds_found(table, from_modules, excluded_modules, search),
        expanded_below(table, excluded_modules, excluded_imports, search, bound),
        is_chain(table, excluded_modules, excluded_imports, chain),
        from_modules.contains(chain[0]),
        chain.len() - 1 <= bound,
    ensures
        search.visited[chain.last() as int],
        search.dist[chain.last() as int] <= chain.len() - 1,
    decreases chain.len(),
{
    if chain.len() == 1 {
        assert(chain[0] < table.len() && !excluded_modules.contains(chain[0]));
    } else {
        lemma_chain_prefix(table, excluded_modules, excluded_imports, chain);
        let shorter = chain.drop_last();
        lemma_chain_found(
            table,
            from_modules,
            excluded_modules,
            excluded_imports,
            search,
            bound,
            shorter,
        );
        let y = shorter.last();
        assert(y == chain[chain.len() - 2]);
        assert(y < table.len() && !excluded_modules.contains(y));
        assert(search.visited[y as int]);
        assert(expanded(table, excluded_modules, excluded_imports, search, y));
        assert(may_follow(table, excluded_modules, excluded_imports, y, chain.last()));
    }
}

/// A list of modules in which each was found from the next, over an
/// import that may be followed, is a chain when read backwards.
proof fn lemma_reversed_chain(
    table: Seq<Set<ModuleToken>>,
    excluded_modules: Set<ModuleToken>,
    excluded_imports: Set<(ModuleToken, ModuleToken)>,
    reversed: Seq<ModuleToken>,
    chain: Seq<ModuleToken>,
)
    requires
        reversed.len() >= 1,
        chain.len() == reversed.len(),
        forall|m: int| 0 <= m < chain.len() ==> chain[m] == reversed[reversed.len() - 1 - m],
        forall|k: int|
            0 <= k < reversed.len() ==> (#[trigger] reversed[k]) < table.len()
                && !excluded_modules.contains(reversed[k]),
        forall|k: int|
            0 <= k < reversed.len() - 1 ==> may_follow(
                table,
                excluded_modules,
                excluded_imports,
                #[trigger] reversed[k + 1],
                reversed[k],
            ),
    ensures
        is_chain(table, excluded_modules, excluded_imports, chain),
        chain[0] == reversed.last(),
        chain.last() == reversed[0],
{
    let n = reversed.len() as int;
    assert forall|i: int| 0 <= i < chain.len() implies (#[trigger] chain[i]) < table.len()
        && !excluded_modules.contains(chain[i]) by {
        assert(chain[i] == reversed[n - 1 - i]);
    }
    assert forall|i: int| 0 <= i < chain.len() - 1 implies table[(
    #[trigger] chain[i]) as int].contains(chain[i + 1]) && !excluded_imports.contains(
        (chain[i], chain[i + 1]),
    ) by {
        let r = n - 2 - i;
        assert(chain[i] == reversed[r + 1]);
        assert(chain[i + 1] == reversed[r]);
        assert(may_follow(table, excluded_modules, excluded_imports, reversed[r + 1], reversed[r]));
    }
    assert(chain[0] == reversed[n - 1]);
    assert(chain.last() == reversed[0]);
}

/// Follows the search back from `target` to the seed it was found from,
/// and gives the chain from that seed to `target`.
fn trace_chain(
    parent: &Vec<ModuleToken>,
    target: ModuleToken,
    Ghost(table): Ghost<Seq<Set<ModuleToken>>>,
    Ghost(from_modules): Ghost<Set<ModuleToken>>,
    Ghost(excluded_modules): Ghost<Set<ModuleToken>>,
    Ghost(excluded_imports): Ghost<Set<(ModuleToken, ModuleToken)>>,
    Ghost(search): Ghost<Search>,
    Ghost(bound): Ghost<nat>,
) -> (chain: Vec<ModuleToken>)
    requires
        search_sound(table, from_modules, excluded_modules, excluded_imports, search, bound),
        parent@ == search.parent,
        target < table.len(),
        search.visited[target as int],
    ensures
        is_chain(table, excluded_modules, excluded_imports, chain@),
        from_modules.contains(chain@[0]),
        chain@.last() == target,
        chain@.len() == search.dist[target as int] + 1,
{
    let mut reversed: Vec<ModuleToken> = Vec::new();
    reversed.push(target);
    let mut x = target;
    while parent[x] != x
        invariant
            search_sound(table, from_modules, excluded_modules, excluded_imports, search, bound),
            parent@ == search.parent,
            x < table.len(),
            search.visited[x as int],
            reversed@.len() >= 1,
            reversed@.last() == x,
            reversed@[0] == target,
            reversed@.len() + search.dist[x as int] == search.dist[target as int] + 1,
            forall|k: int|
                0 <= k < reversed@.len() ==> (#[trigger] reversed@[k]) < table.len()
                    && !excluded_modules.contains(reversed@[k]),
            forall|k: int|
                0 <= k < reversed@.len() - 1 ==> may_follow(
                    table,
                    excluded_modules,
                    excluded_imports,
                    #[trigger] reversed@[k + 1],
                    reversed@[k],
                ),
        decreases search.dist[x as int],
    {
        let ghost before = reversed@;
        let nearer = parent[x];
        assert(search.dist[x as int] > 0);
        reversed.push(nearer);
        assert forall|k: int| 0 <= k < reversed@.len() - 1 implies may_follow(
            table,
            excluded_modules,
            excluded_imports,
            #[trigger] reversed@[k + 1],
            reversed@[k],
        ) by {
            if k < before.len() - 1 {
                assert(reversed@[k + 1] == before[k + 1]);
                assert(reversed@[k] == before[k]);
            } else {
                assert(reversed@[k] == x);
                assert(reversed@[k + 1] == nearer);
            }
        }
        x = nearer;
    }
    assert(search.dist[x as int] == 0);
    let mut chain: Vec<ModuleToken> = Vec::new();
    let mut k: usize = reversed.len();
    while k > 0
        invariant
            k <= reversed@.len(),
            chain@.len() == reversed@.len() - k,
            forall|m: int| 0 <= m < chain@.len() ==> chain@[m] == reversed@[reversed@.len() - 1 - m],
        decreases k,
    {
        k = k - 1;
        chain.push(reversed[k]);
    }
    proof {
        lemma_reversed_chain(table, excluded_modules, excluded_imports, reversed@, chain@);
    }
    chain
}

/// What a search is asked: the table of imports, where to start and to
/// end, and what to leave out.
struct Problem {
    table: Seq<Set<ModuleToken>>,
    seeds: Set<ModuleToken>,
    targets: Set<ModuleToken>,
    barred: Set<ModuleToken>,
    cut: Set<(ModuleToken, ModuleToken)>,
}

/// Whether `order` lists the tokens found, each once.
spec fn order_ok(count: nat, search: Search, order: Seq<ModuleToken>) -> bool {
    &&& order.no_duplicates()
    &&& forall|k: int| 0 <= k < order.len() ==> order[k] < count
    &&& forall|x: ModuleToken| x < count ==> (#[trigger] search.visited[x as int] <==> order.contains(x))
}

/// The state between two levels: all tokens nearer than `level` are
/// expanded and none is a target, and `current` holds the tokens at
/// `level`.
#[verifier::opaque]
spec fn level_ok(
    problem: Problem,
    search: Search,
    level: nat,
    current: Seq<ModuleToken>,
    order: Seq<ModuleToken>,
) -> bool {
    &&& closed_adjacency(problem.table)
    &&& search_sound(problem.table, problem.seeds, problem.barred, problem.cut, search, level)
    &&& seeds_found(problem.table, problem.seeds, problem.barred, search)
    &&& expanded_below(problem.table, problem.barred, problem.cut, search, level)
    &&& forall|x: ModuleToken|
        x < problem.table.len() && #[trigger] search.visited[x as int] && search.dist[x as int] < level
            ==> !problem.targets.contains(x)
    &&& forall|x: ModuleToken|
        x < problem.table.len() ==> (#[trigger] current.contains(x) <==> search.visited[x as int]
            && search.dist[x as int] == level)
    &&& forall|k: int| 0 <= k < current.len() ==> current[k] < problem.table.len()
    &&& order_ok(problem.table.len(), search, order)
}

/// The state while a level is expanded: none of the tokens up to `level`
/// is a target, and `next` holds the tokens found at the level after.
#[verifier::opaque]
spec fn expanding_ok(
    problem: Problem,
    search: Search,
    level: nat,
    current: Seq<ModuleToken>,
    next: Seq<ModuleToken>,
    order: Seq<ModuleToken>,
) -> bool {
    &&& closed_adjacency(problem.table)
    &&& search_sound(problem.table, problem.seeds, problem.barred, problem.cut, search, level + 1)
    &&& seeds_found(problem.table, problem.seeds, problem.barred, search)
    &&& expanded_below(problem.table, problem.barred, problem.cut, search, level)
    &&& forall|x: ModuleToken|
        x < problem.table.len() && #[trigger] search.visited[x as int] && search.dist[x as int] < level
            + 1 ==> !problem.targets.contains(x)
    &&& forall|x: ModuleToken|
        x < problem.table.len() ==> (#[trigger] current.contains(x) <==> search.visited[x as int]
            && search.dist[x as int] == level)
    &&& forall|x: ModuleToken|
        x < problem.table.len() ==> (#[trigger] next.contains(x) <==> search.visited[x as int]
            && search.dist[x as int] == level + 1)
    &&& forall|k: int| 0 <= k < current.len() ==> current[k] < problem.table.len()
    &&& forall|k: int| 0 <= k < next.len() ==> next[k] < problem.table.len()
    &&& order_ok(problem.table.len(), search, order)
}

/// The search after `imported` has been found from `importer`.
spec fn visit(search: Search, importer: ModuleToken, imported: ModuleToken) -> Search {
    Search {
        visited: search.visited.update(imported as int, true),
        parent: search.parent.update(imported as int, importer),
        dist: search.dist.update(imported as int, search.dist[importer as int] + 1),
    }
}

/// What is known of a token of the current level between two levels.
proof fn lemma_level_facts(
    problem: Problem,
    search: Search,
    level: nat,
    current: Seq<ModuleToken>,
    order: Seq<ModuleToken>,
    k: int,
)
    requires
        level_ok(problem, search, level, current, order),
        0 <= k < current.len(),
    ensures
        search_sound(problem.table, problem.seeds, problem.barred, problem.cut, search, level),
        current[k] < problem.table.len(),
        search.visited[current[k] as int],
        search.dist[current[k] as int] == level,
{
    reveal(level_ok);
    assert(current.contains(current[k]));
}

/// No more tokens are found than the table has.
proof fn lemma_order_bound(
    problem: Problem,
    search: Search,
    level: nat,
    current: Seq<ModuleToken>,
    order: Seq<ModuleToken>,
)
    requires
        level_ok(problem, search, level, current, order),
    ensures
        order.len() <= problem.table.len(),
{
    reveal(level_ok);
    lemma_distinct_bounded(order, problem.table.len());
}

/// A chain traced back from a target at the current level is a shortest
/// chain.
proof fn lemma_found(
    problem: Problem,
    search: Search,
    level: nat,
    current: Seq<ModuleToken>,
    order: Seq<ModuleToken>,
    k: int,
    chain: Seq<ModuleToken>,
)
    requires
        level_ok(problem, search, level, current, order),
        0 <= k < current.len(),
        problem.targets.contains(current[k]),
        is_chain(problem.table, problem.barred, problem.cut, chain),
        problem.seeds.contains(chain[0]),
        chain.last() == current[k],
        chain.len() == search.dist[current[k] as int] + 1,
    ensures
        is_shortest_chain(
            problem.table,
            problem.seeds,
            problem.targets,
            problem.barred,
            problem.cut,
            chain,
        ),
{
    reveal(level_ok);
    assert(current.contains(current[k]));
    assert(chain.len() == level + 1);
    assert forall|other: Seq<ModuleToken>|
        #[trigger] is_chain(problem.table, problem.barred, problem.cut, other) && connects(
            other,
            problem.seeds,
            problem.targets,
        ) implies chain.len() <= other.len() by {
        if other.len() < chain.len() {
            lemma_chain_found(
                problem.table,
                problem.seeds,
                problem.barred,
                problem.cut,
                search,
                level,
                other,
            );
            let end = other.last();
            assert(end < problem.table.len());
            assert(search.visited[end as int] && search.dist[end as int] < level);
        }
    }
}

/// Once no token of the current level is a target, the level can be
/// expanded.
proof fn lemma_scan_done(
    problem: Problem,
    search: Search,
    level: nat,
    current: Seq<ModuleToken>,
    order: Seq<ModuleToken>,
)
    requires
        level_ok(problem, search, level, current, order),
        forall|k: int| 0 <= k < current.len() ==> !problem.targets.contains(current[k]),
    ensures
        expanding_ok(problem, search, level, current, Seq::empty(), order),
{
    reveal(level_ok);
    reveal(expanding_ok);
    let next = Seq::<ModuleToken>::empty();
    assert forall|x: ModuleToken|
        x < problem.table.len() && #[trigger] search.visited[x as int] && search.dist[x as int] < level
            + 1 implies !problem.targets.contains(x) by {
        if search.dist[x as int] == level {
            assert(current.contains(x));
            let k = choose|k: int| 0 <= k < current.len() && current[k] == x;
            assert(!problem.targets.contains(current[k]));
        }
    }
    assert forall|x: ModuleToken| x < problem.table.len() implies (#[trigger] next.contains(x)
        <==> search.visited[x as int] && search.dist[x as int] == level + 1) by {}
}

/// What is known of a token of the current level while the level is
/// expanded.
proof fn lemma_expanding_facts(
    problem: Problem,
    search: Search,
    level: nat,
    current: Seq<ModuleToken>,
    next: Seq<ModuleToken>,
    order: Seq<ModuleToken>,
    k: int,
)
    requires
        expanding_ok(problem, search, level, current, next, order),
        0 <= k < current.len(),
    ensures
        current[k] < problem.table.len(),
        search.visited[current[k] as int],
        search.dist[current[k] as int] == level,
        search.visited.len() == problem.table.len(),
        search.parent.len() == problem.table.len(),
        search.dist.len() == problem.table.len(),
{
    reveal(expanding_ok);
    assert(current.contains(current[k]));
}

/// Finding one more token keeps the state of the expansion, and what was
/// expanded stays expanded.
proof fn lemma_visit(
    problem: Problem,
    search: Search,
    level: nat,
    current: Seq<ModuleToken>,
    next: Seq<ModuleToken>,
    order: Seq<ModuleToken>,
    importer: ModuleToken,
    imported: ModuleToken,
)
    requires
        expanding_ok(problem, search, level, current, next, order),
        importer < problem.table.len(),
        imported < problem.table.len(),
        search.visited[importer as int],
        search.dist[importer as int] == level,
        !search.visited[imported as int],
        may_follow(problem.table, problem.barred, problem.cut, importer, imported),
    ensures
        expanding_ok(
            problem,
            visit(search, importer, imported),
            level,
            current,
            next.push(imported),
            order.push(imported),
        ),
        forall|y: ModuleToken|
            y < problem.table.len() && search.visited[y as int] && #[trigger] expanded(
                problem.table,
                problem.barred,
                problem.cut,
                search,
                y,
            ) ==> expanded(
                problem.table,
                problem.barred,
                problem.cut,
                visit(search, importer, imported),
                y,
            ),
{
    reveal(expanding_ok);
    let table = problem.table;
    let barred = problem.barred;
    let cut = problem.cut;
    let after = visit(search, importer, imported);
    let longer = next.push(imported);
    assert forall|x: ModuleToken|
        x < table.len() && search.visited[x as int] implies after.visited[x as int]
        && after.dist[x as int] == search.dist[x as int] && after.parent[x as int]
        == search.parent[x as int] by {}
    assert(search_sound(table, problem.seeds, barred, cut, after, level + 1)) by {
        assert forall|x: ModuleToken| x < table.len() && #[trigger] after.visited[x as int] implies {
            &&& !barred.contains(x)
            &&& after.dist[x as int] <= level + 1
            &&& after.dist[x as int] == 0 ==> problem.seeds.contains(x) && after.parent[x as int]
                == x
            &&& after.dist[x as int] > 0 ==> {
                let p = after.parent[x as int];
                &&& p < table.len()
                &&& after.visited[p as int]
                &&& after.dist[p as int] + 1 == after.dist[x as int]
                &&& may_follow(table, barred, cut, p, x)
            }
        } by {
            if x != imported {
                assert(search.visited[x as int]);
                if search.dist[x as int] > 0 {
                    let p = search.parent[x as int];
                    assert(search.visited[p as int]);
                }
            }
        }
    }
    assert(seeds_found(table, problem.seeds, barred, after)) by {
        assert forall|s: ModuleToken|
            s < table.len() && #[trigger] problem.seeds.contains(s) && !barred.contains(
                s,
            ) implies after.visited[s as int] && after.dist[s as int] == 0 by {
            assert(search.visited[s as int]);
        }
    }
    assert forall|y: ModuleToken|
        y < table.len() && search.visited[y as int] && #[trigger] expanded(
            table,
            barred,
            cut,
            search,
            y,
        ) implies expanded(table, barred, cut, after, y) by {
        assert forall|x: ModuleToken| #[trigger]
            may_follow(table, barred, cut, y, x) implies after.visited[x as int] && after.dist[x as int]
            <= after.dist[y as int] + 1 by {
            assert(x < table.len());
            assert(search.visited[x as int]);
        }
    }
    assert(expanded_below(table, barred, cut, after, level)) by {
        assert forall|y: ModuleToken|
            y < table.len() && #[trigger] after.visited[y as int] && after.dist[y as int]
                < level implies expanded(table, barred, cut, after, y) by {
            assert(search.visited[y as int]);
            assert(expanded(table, barred, cut, search, y));
        }
    }
    assert forall|x: ModuleToken|
        x < table.len() && #[trigger] after.visited[x as int] && after.dist[x as int] < level
            + 1 implies !problem.targets.contains(x) by {
        assert(search.visited[x as int]);
    }
    assert forall|x: ModuleToken| x < table.len() implies (#[trigger] current.contains(x)
        <==> after.visited[x as int] && after.dist[x as int] == level) by {
        if x != imported {
            assert(after.visited[x as int] == search.visited[x as int]);
        }
    }
    assert(!next.contains(imported));
    assert forall|x: ModuleToken| x < table.len() implies (#[trigger] longer.contains(x)
        <==> after.visited[x as int] && after.dist[x as int] == level + 1) by {
        if next.contains(x) {
            let k = choose|k: int| 0 <= k < next.len() && next[k] == x;
            assert(longer[k] == x);
        }
        if x == imported {
            assert(longer[next.len() as int] == x);
        }
        if longer.contains(x) {
            let k = choose|k: int| 0 <= k < longer.len() && longer[k] == x;
            if k < next.len() {
                assert(next[k] == x);
                assert(next.contains(x));
            }
        }
    }
    assert(!order.contains(imported));
    lemma_push_distinct(order, imported);
    assert(order_ok(table.len(), after, order.push(imported))) by {
        let more = order.push(imported);
        assert forall|x: ModuleToken| x < table.len() implies (#[trigger] after.visited[x as int]
            <==> more.contains(x)) by {
            if x != imported {
                assert(after.visited[x as int] == search.visited[x as int]);
            }
        }
    }
}

/// Once every token of the current level is expanded, the next level is
/// complete; if it is empty, no chain connects.
proof fn lemma_level_done(
    problem: Problem,
    search: Search,
    level: nat,
    current: Seq<ModuleToken>,
    next: Seq<ModuleToken>,
    order: Seq<ModuleToken>,
)
    requires
        expanding_ok(problem, search, level, current, next, order),
        forall|k: int|
            0 <= k < current.len() ==> expanded(
                problem.table,
                problem.barred,
                problem.cut,
                search,
                #[trigger] current[k],
            ),
    ensures
        level_ok(problem, search, level + 1, next, order),
        next.len() == 0 ==> no_chain(
            problem.table,
            problem.seeds,
            problem.targets,
            problem.barred,
            problem.cut,
        ),
{
    reveal(expanding_ok);
    reveal(level_ok);
    let table = problem.table;
    let barred = problem.barred;
    let cut = problem.cut;
    assert(expanded_below(table, barred, cut, search, level + 1)) by {
        assert forall|y: ModuleToken|
            y < table.len() && #[trigger] search.visited[y as int] && search.dist[y as int] < level
                + 1 implies expanded(table, barred, cut, search, y) by {
            if search.dist[y as int] == level {
                assert(current.contains(y));
                let k = choose|k: int| 0 <= k < current.len() && current[k] == y;
                assert(expanded(table, barred, cut, search, current[k]));
            }
        }
    }
    if next.len() == 0 {
        assert forall|other: Seq<ModuleToken>| #[trigger]
            is_chain(table, barred, cut, other) implies !connects(
            other,
            problem.seeds,
            problem.targets,
        ) by {
            if connects(other, problem.seeds, problem.targets) {
                let far = (other.len() + level + 1) as nat;
                assert(expanded_below(table, barred, cut, search, far)) by {
                    assert forall|y: ModuleToken|
                        y < table.len() && #[trigger] search.visited[y as int] && search.dist[y as int]
                            < far implies expanded(table, barred, cut, search, y) by {
                        if search.dist[y as int] == level + 1 {
                            assert(next.contains(y));
                        }
                    }
                }
                lemma_chain_found(table, problem.seeds, barred, cut, search, far, other);
                let end = other.last();
                assert(end < table.len());
                if search.dist[end as int] == level + 1 {
                    assert(next.contains(end));
                }
            }
        }
    }
}

/// The search starts sound: the allowed seeds are found, at distance zero.
proof fn lemma_search_start(
    problem: Problem,
    search: Search,
    current: Seq<ModuleToken>,
    order: Seq<ModuleToken>,
)
    requires
        closed_adjacency(problem.table),
        search.visited.len() == problem.table.len(),
        search.parent.len() == problem.table.len(),
        search.dist.len() == problem.table.len(),
        forall|x: int| 0 <= x < search.dist.len() ==> search.dist[x] == 0,
        forall|x: ModuleToken|
            x < problem.table.len() ==> (#[trigger] search.visited[x as int]
                <==> !problem.barred.contains(x) && problem.seeds.contains(x)),
        forall|x: ModuleToken|
            x < problem.table.len() && #[trigger] search.visited[x as int] ==> search.parent[x as int]
                == x,
        forall|x: ModuleToken|
            x < problem.table.len() ==> (#[trigger] search.visited[x as int] <==> current.contains(
                x,
            )),
        forall|k: int| 0 <= k < current.len() ==> current[k] < problem.table.len(),
        order_ok(problem.table.len(), search, order),
    ensures
        level_ok(problem, search, 0, current, order),
{
    reveal(level_ok);
    assert(expanded_below(problem.table, problem.barred, problem.cut, search, 0));
}

/// Finds a shortest chain of imports from one of `from_modules` to one of
/// `to_modules` that passes through no excluded module and over no
/// excluded import. Which of several shortest chains is found is left
/// open. Fails if `from_modules` or `to_modules` holds a token that the
/// graph lacks.
pub fn find_shortest_path(
    graph: &Graph,
    from_modules: &FxHashSet<ModuleToken>,
    to_modules: &FxHashSet<ModuleToken>,
    excluded_modules: &FxHashSet<ModuleToken>,
    excluded_imports: &FxHashMap<ModuleToken, FxHashSet<ModuleToken>>,
) -> (found: Result<Option<Vec<ModuleToken>>, GrimpError>)
    requires
        graph.wf(),
    ensures
        found is Err <==> holds_unknown(from_modules@, graph.names().len()) || holds_unknown(
            to_modules@,
            graph.names().len(),
        ),
        found matches Err(e) ==> e is InvariantViolation,
        found matches Ok(Some(chain)) ==> is_shortest_chain(
            graph.imports_view(),
            from_modules@,
            to_modules@,
            excluded_modules@,
            excluded_edges(excluded_imports@),
            chain@,
        ),
        found matches Ok(None) ==> no_chain(
            graph.imports_view(),
            from_modules@,
            to_modules@,
            excluded_modules@,
            excluded_edges(excluded_imports@),
        ),
{
    proof {
        graph.lemma_well_formed();
    }
    let adjacency = graph.imports();
    let ghost problem = Problem {
        table: graph.imports_view(),
        seeds: from_modules@,
        targets: to_modules@,
        barred: excluded_modules@,
        cut: excluded_edges(excluded_imports@),
    };
    let count = adjacency.len();
    assert(count == problem.table.len());
    let seed_list = tokens_of(from_modules);
    let mut i: usize = 0;
    while i < seed_list.len()
        invariant
            i <= seed_list.len(),
            count == graph.names().len(),
            seed_list@.to_set() == from_modules@,
            forall|k: int| 0 <= k < i ==> seed_list@[k] < count,
        decreases seed_list.len() - i,
    {
        if seed_list[i] >= count {
            assert(seed_list@.to_set().contains(seed_list@[i as int]));
            assert(from_modules@.contains(seed_list@[i as int]));
            return Err(GrimpError::InvariantViolation("unknown module token".to_owned()));
        }
        i = i + 1;
    }
    proof {
        if holds_unknown(from_modules@, count as nat) {
            let t = choose|t: ModuleToken| #[trigger] from_modules@.contains(t) && t >= count;
            assert(seed_list@.to_set().contains(t));
            assert(seed_list@.contains(t));
        }
    }
    let target_list = tokens_of(to_modules);
    let mut i: usize = 0;
    while i < target_list.len()
        invariant
            i <= target_list.len(),
            count == graph.names().len(),
            target_list@.to_set() == to_modules@,
            forall|k: int| 0 <= k < i ==> target_list@[k] < count,
        decreases target_list.len() - i,
    {
        if target_list[i] >= count {
            assert(target_list@.to_set().contains(target_list@[i as int]));
            assert(to_modules@.contains(target_list@[i as int]));
            return Err(GrimpError::InvariantViolation("unknown module token".to_owned()));
        }
        i = i + 1;
    }
    proof {
        if holds_unknown(to_modules@, count as nat) {
            let t = choose|t: ModuleToken| #[trigger] to_modules@.contains(t) && t >= count;
            assert(target_list@.to_set().contains(t));
            assert(target_list@.contains(t));
        }
    }
    let mut visited: Vec<bool> = Vec::new();
    let mut parent: Vec<ModuleToken> = Vec::new();
    let mut i: usize = 0;
    while i < count
        invariant
            i <= count,
            visited@.len() == i,
            parent@.len() == i,
            forall|x: int| 0 <= x < i ==> !visited@[x],
        decreases count - i,
    {
        visited.push(false);
        parent.push(0);
        i = i + 1;
    }
    let ghost mut order: Seq<ModuleToken> = Seq::empty();
    let mut current: Vec<ModuleToken> = Vec::new();
    let mut i: usize = 0;
    while i < seed_list.len()
        invariant
            i <= seed_list.len(),
            seed_list@.to_set() == from_modules@,
            seed_list@.no_duplicates(),
            forall|k: int| 0 <= k < seed_list@.len() ==> seed_list@[k] < count,
            visited@.len() == count,
            parent@.len() == count,
            forall|x: ModuleToken|
                x < count ==> (#[trigger] visited@[x as int] <==> !excluded_modules@.contains(x)
                    && exists|k: int| 0 <= k < i && seed_list@[k] == x),
            forall|x: ModuleToken| x < count && #[trigger] visited@[x as int] ==> parent@[x as int] == x,
            order.no_duplicates(),
            forall|k: int| 0 <= k < order.len() ==> order[k] < count,
            forall|x: ModuleToken| x < count ==> (#[trigger] visited@[x as int] <==> order.contains(x)),
            forall|x: ModuleToken| x < count ==> (#[trigger] visited@[x as int] <==> current@.contains(x)),
            forall|k: int| 0 <= k < current@.len() ==> current@[k] < count,
        decreases seed_list.len() - i,
    {
        let seed = seed_list[i];
        let ghost old_visited = visited@;
        let ghost old_current = current@;
        let ghost old_order = order;
        if !holds_token(excluded_modules, seed) {
            assert(!visited@[seed as int]) by {
                if visited@[seed as int] {
                    let k = choose|k: int| 0 <= k < i && seed_list@[k] == seed;
                    assert(seed_list@[k] == seed_list@[i as int]);
                }
            }
            visited.set(seed, true);
            parent.set(seed, seed);
            current.push(seed);
            proof {
                lemma_push_distinct(old_order, seed);
                order = order.push(seed);
                assert forall|x: ModuleToken| x < count implies (#[trigger] visited@[x as int]
                    <==> current@.contains(x)) by {
                    if old_current.contains(x) {
                        let k = choose|k: int| 0 <= k < old_current.len() && old_current[k] == x;
                        assert(current@[k] == x);
                    }
                    if x == seed {
                        assert(current@[old_current.len() as int] == x);
                    }
                    if current@.contains(x) {
                        let k = choose|k: int| 0 <= k < current@.len() && current@[k] == x;
                        if k < old_current.len() {
                            assert(old_current[k] == x);
                            assert(old_current.contains(x));
                        }
                    }
                }
            }
        }
        assert forall|x: ModuleToken| x < count implies (#[trigger] visited@[x as int]
            <==> !excluded_modules@.contains(x) && exists|k: int|
            0 <= k < i + 1 && seed_list@[k] == x) by {
            if old_visited[x as int] {
                let k = choose|k: int| 0 <= k < i && seed_list@[k] == x;
                assert(0 <= k < i + 1 && seed_list@[k] == x);
            }
            if x == seed {
                assert(seed_list@[i as int] == x);
            }
        }
        i = i + 1;
    }
    let ghost mut search = Search {
        visited: visited@,
        parent: parent@,
        dist: Seq::new(count as nat, |x: int| 0nat),
    };
    let ghost mut level: nat = 0;
    proof {
        assert forall|x: ModuleToken| x < count implies (#[trigger] search.visited[x as int]
            <==> !problem.barred.contains(x) && problem.seeds.contains(x)) by {
            if search.visited[x as int] {
                let k = choose|k: int| 0 <= k < seed_list@.len() && seed_list@[k] == x;
                assert(seed_list@.to_set().contains(seed_list@[k]));
            }
            if problem.seeds.contains(x) {
                assert(seed_list@.to_set().contains(x));
                assert(seed_list@.contains(x));
            }
        }
        lemma_search_start(problem, search, current@, order);
    }
    loop
        invariant
            count == problem.table.len(),
            count == adjacency@.len(),
            count == graph.names().len(),
            problem.table == adjacency_view(adjacency@),
            problem == (Problem {
                table: graph.imports_view(),
                seeds: from_modules@,
                targets: to_modules@,
                barred: excluded_modules@,
                cut: excluded_edges(excluded_imports@),
            }),
            !holds_unknown(from_modules@, count as nat),
            !holds_unknown(to_modules@, count as nat),
            closed_adjacency(problem.table),
            search.visited == visited@,
            search.parent == parent@,
            level_ok(problem, search, level, current@, order),
        decreases count - order.len(),
    {
        proof {
            lemma_order_bound(problem, search, level, current@, order);
        }
        let mut i: usize = 0;
        while i < current.len()
            invariant
                i <= current@.len(),
                count == graph.names().len(),
                problem == (Problem {
                    table: graph.imports_view(),
                    seeds: from_modules@,
                    targets: to_modules@,
                    barred: excluded_modules@,
                    cut: excluded_edges(excluded_imports@),
                }),
                !holds_unknown(from_modules@, count as nat),
                !holds_unknown(to_modules@, count as nat),
                search.parent == parent@,
                level_ok(problem, search, level, current@, order),
                forall|k: int| 0 <= k < i ==> !problem.targets.contains(current@[k]),
            decreases current.len() - i,
        {
            let candidate = current[i];
            if holds_token(to_modules, candidate) {
                proof {
                    lemma_level_facts(problem, search, level, current@, order, i as int);
                }
                let chain = trace_chain(
                    &parent,
                    candidate,
                    Ghost(problem.table),
                    Ghost(problem.seeds),
                    Ghost(problem.barred),
                    Ghost(problem.cut),
                    Ghost(search),
                    Ghost(level),
                );
                proof {
                    lemma_found(problem, search, level, current@, order, i as int, chain@);
                }
                return Ok(Some(chain));
            }
            i = i + 1;
        }
        let mut next: Vec<ModuleToken> = Vec::new();
        let ghost order_before = order;
        proof {
            lemma_scan_done(problem, search, level, current@, order);
        }
        let mut i: usize = 0;
        while i < current.len()
            invariant
                i <= current@.len(),
                count == problem.table.len(),
                count == adjacency@.len(),
                problem.table == adjacency_view(adjacency@),
                problem.barred == excluded_modules@,
                problem.cut == excluded_edges(excluded_imports@),
                closed_adjacency(problem.table),
                search.visited == visited@,
                search.parent == parent@,
                expanding_ok(problem, search, level, current@, next@, order),
                forall|k: int|
                    0 <= k < i ==> expanded(
                        problem.table,
                        problem.barred,
                        problem.cut,
                        search,
                        #[trigger] current@[k],
                    ),
                order.len() == order_before.len() + next@.len(),
            decreases current.len() - i,
        {
            let importer = current[i];
            proof {
                lemma_expanding_facts(problem, search, level, current@, next@, order, i as int);
            }
            let neighbours = tokens_of(&adjacency[importer]);
            assert(neighbours@.to_set() == problem.table[importer as int]);
            let cut_here = targets_under(excluded_imports, importer);
            let mut j: usize = 0;
            while j < neighbours.len()
                invariant
                    j <= neighbours@.len(),
                    i < current@.len(),
                    importer == current@[i as int],
                    importer < count,
                    search.visited[importer as int],
                    search.dist[importer as int] == level,
                    search.dist.len() == count,
                    neighbours@.to_set() == problem.table[importer as int],
                    problem.cut == excluded_edges(excluded_imports@),
                    match cut_here {
                        Some(set) => excluded_imports@.contains_key(importer) && *set
                            == excluded_imports@[importer],
                        None => !excluded_imports@.contains_key(importer),
                    },
                    count == problem.table.len(),
                    problem.barred == excluded_modules@,
                    closed_adjacency(problem.table),
                    search.visited == visited@,
                    search.parent == parent@,
                    visited@.len() == count,
                    parent@.len() == count,
                    expanding_ok(problem, search, level, current@, next@, order),
                    forall|k: int|
                        0 <= k < i ==> expanded(
                            problem.table,
                            problem.barred,
                            problem.cut,
                            search,
                            #[trigger] current@[k],
                        ),
                    forall|k: int|
                        0 <= k < j && may_follow(
                            problem.table,
                            problem.barred,
                            problem.cut,
                            importer,
                            #[trigger] neighbours@[k],
                        ) ==> search.visited[neighbours@[k] as int]
                            && search.dist[neighbours@[k] as int] <= level + 1,
                    order.len() == order_before.len() + next@.len(),
                decreases neighbours.len() - j,
            {
                let imported = neighbours[j];
                assert(neighbours@.to_set().contains(neighbours@[j as int]));
                assert(problem.table[importer as int].contains(imported));
                assert(imported < count);
                let import_cut = match cut_here {
                    Some(set) => holds_token(set, imported),
                    None => false,
                };
                assert(import_cut == import_excluded(excluded_imports@, importer, imported));
                assert(import_cut == problem.cut.contains((importer, imported)));
                if !import_cut && !holds_token(excluded_modules, imported) && !visited[imported] {
                    let ghost old_search = search;
                    proof {
                        lemma_visit(
                            problem,
                            search,
                            level,
                            current@,
                            next@,
                            order,
                            importer,
                            imported,
                        );
                    }
                    visited.set(imported, true);
                    parent.set(imported, importer);
                    next.push(imported);
                    proof {
                        search = visit(search, importer, imported);
                        order = order.push(imported);
                        assert forall|k: int| 0 <= k < i implies expanded(
                            problem.table,
                            problem.barred,
                            problem.cut,
                            search,
                            #[trigger] current@[k],
                        ) by {
                            lemma_expanding_facts(
                                problem,
                                search,
                                level,
                                current@,
                                next@,
                                order,
                                k,
                            );
                            assert(old_search.visited[current@[k] as int]);
                            assert(expanded(
                                problem.table,
                                problem.barred,
                                problem.cut,
                                old_search,
                                current@[k],
                            ));
                        }
                        assert forall|k: int|
                            0 <= k < j + 1 && may_follow(
                                problem.table,
                                problem.barred,
                                problem.cut,
                                importer,
                                #[trigger] neighbours@[k],
                            ) implies search.visited[neighbours@[k] as int]
                            && search.dist[neighbours@[k] as int] <= level + 1 by {
                            assert(neighbours@.to_set().contains(neighbours@[k]));
                            assert(neighbours@[k] < count);
                            if k < j {
                                assert(old_search.visited[neighbours@[k] as int]);
                            }
                        }
                    }
                } else {
                    proof {
                        if may_follow(
                            problem.table,
                            problem.barred,
                            problem.cut,
                            importer,
                            imported,
                        ) {
                            assert(search.visited[imported as int]);
                            reveal(expanding_ok);
                        }
                    }
                }
                j = j + 1;
            }
            proof {
                assert(expanded(problem.table, problem.barred, problem.cut, search, importer)) by {
                    assert forall|x: ModuleToken| #[trigger]
                        may_follow(
                            problem.table,
                            problem.barred,
                            problem.cut,
                            importer,
                            x,
                        ) implies search.visited[x as int] && search.dist[x as int]
                        <= search.dist[importer as int] + 1 by {
                        assert(neighbours@.to_set().contains(x));
                        assert(neighbours@.contains(x));
                        let k = choose|k: int| 0 <= k < neighbours@.len() && neighbours@[k] == x;
                        assert(may_follow(
                            problem.table,
                            problem.barred,
                            problem.cut,
                            importer,
                            neighbours@[k],
                        ));
                    }
                }
            }
            i = i + 1;
        }
        proof {
            lemma_level_done(problem, search, level, current@, next@, order);
        }
        if next.len() == 0 {
            return Ok(None);
        }
        current = next;
        proof {
            level = level + 1;
            lemma_order_bound(problem, search, level, current@, order);
        }
    }
}

} // verus!
