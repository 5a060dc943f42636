use vstd::prelude::*;

use crate::chain::{lemma_anchor_fixed, lemma_steps_keep, reached_after, update_keeps};

verus! {

/// `links` is the first link alone: `made` by `make(0)` and settled with the
/// acceleration `a` that `accel` gives it with no neighbours.
pub open spec fn first_link<T, A, M, C, S>(
    make: M,
    accel: C,
    settle: S,
    made: T,
    a: A,
    links: Seq<T>,
) -> bool where
    M: Fn(usize) -> T,
    C: Fn(&T, Option<&T>, Option<&T>) -> A,
    S: Fn(&T, A) -> T,
{
    &&& call_ensures(make, (0usize,), made)
    &&& call_ensures(accel, (&made, None::<&T>, None::<&T>), a)
    &&& links.len() == 1
    &&& call_ensures(settle, (&made, a), links[0])
}

/// `links` follows `prev` by one more link: link `prev.len()` is `made` by
/// `make`, and then the second link is settled again with the acceleration `a`
/// that `accel` gives the new link next to the link before it.
pub open spec fn next_link<T, A, M, C, S>(
    make: M,
    accel: C,
    settle: S,
    prev: Seq<T>,
    made: T,
    a: A,
    links: Seq<T>,
) -> bool where
    M: Fn(usize) -> T,
    C: Fn(&T, Option<&T>, Option<&T>) -> A,
    S: Fn(&T, A) -> T,
{
    let grown = prev.push(made);
    let count = grown.len();
    &&& prev.len() >= 1
    &&& call_ensures(make, (prev.len() as usize,), made)
    &&& call_ensures(accel, (&grown[count - 1], Some(&grown[count - 2]), None::<&T>), a)
    &&& links.len() == count
    &&& links[0] == grown[0]
    &&& call_ensures(settle, (&grown[1], a), links[1])
    &&& forall|k: int| 2 <= k < count ==> #[trigger] links[k] == grown[k]
}

/// The chain that `generate_chain` holds after `count` links were made:
/// the first link is made and settled from no neighbours; each further link
/// is made, and then the second link of the chain is settled again from the
/// newest link and the one before it.
pub open spec fn built_up_to<T, A, M, C, S>(
    make: M,
    accel: C,
    settle: S,
    count: nat,
    links: Seq<T>,
) -> bool where
    M: Fn(usize) -> T,
    C: Fn(&T, Option<&T>, Option<&T>) -> A,
    S: Fn(&T, A) -> T,
    decreases count,
{
    if count <= 1 {
        count == 1 && exists|made: T, a: A|
            #[trigger] first_link(make, accel, settle, made, a, links)
    } else {
        exists|prev: Seq<T>, made: T, a: A|
            built_up_to(make, accel, settle, (count - 1) as nat, prev)
                && #[trigger] next_link(make, accel, settle, prev, made, a, links)
    }
}

/// Shape of a generated chain of `count` links: it has `count` links; the
/// first was made by `make(0)` and settled from no neighbours; every link
/// from the third on is exactly what `make` made for its place.
pub proof fn lemma_built_shape<T, A, M, C, S>(
    make: M,
    accel: C,
    settle: S,
    count: nat,
    links: Seq<T>,
) where
    M: Fn(usize) -> T,
    C: Fn(&T, Option<&T>, Option<&T>) -> A,
    S: Fn(&T, A) -> T,

    requires
        built_up_to(make, accel, settle, count, links),
    ensures
        count >= 1,
        links.len() == count,
        exists|made: T, a: A|
            #![trigger call_ensures(make, (0usize,), made), call_ensures(settle, (&made, a), links[0])]
            {
                &&& call_ensures(make, (0usize,), made)
                &&& call_ensures(accel, (&made, None::<&T>, None::<&T>), a)
                &&& call_ensures(settle, (&made, a), links[0])
            },
        forall|k: int| 2 <= k < count ==> call_ensures(make, (k as usize,), #[trigger] links[k]),
    decreases count,
{
    if count <= 1 {
        let (made, a) = choose|made: T, a: A| #[trigger] first_link(make, accel, settle, made, a, links);
        assert(call_ensures(make, (0usize,), made) && call_ensures(settle, (&made, a), links[0]));
    } else {
        let (prev, made, a) = choose|prev: Seq<T>, made: T, a: A|
            built_up_to(make, accel, settle, (count - 1) as nat, prev)
                && #[trigger] next_link(make, accel, settle, prev, made, a, links);
        lemma_built_shape(make, accel, settle, (count - 1) as nat, prev);
        let grown = prev.push(made);
        assert(links[0] == prev[0]);
        assert forall|k: int| 2 <= k < count implies call_ensures(make, (k as usize,), #[trigger] links[k]) by {
            assert(links[k] == grown[k]);
            if k < count - 1 {
                assert(grown[k] == prev[k]);
            }
        }
    }
}

/// Number of links that `generate_chain` makes for a requested length:
/// the first link is always made.
pub open spec fn chain_size(length: usize) -> nat {
    if length == 0 { 1 } else { length as nat }
}

/// Builds a chain of `length` links (one at least). Link `i` comes from
/// `make(i)`. The first link is settled by `settle` with the acceleration
/// that `accel` gives it alone; after each further link is made, the second
/// link is settled with the acceleration that `accel` gives the newest link
/// next to the one before it.
pub fn generate_chain<T, A, M, C, S>(length: usize, make: &M, accel: &C, settle: &S) -> (links: Vec<T>) where
    M: Fn(usize) -> T,
    C: Fn(&T, Option<&T>, Option<&T>) -> A,
    S: Fn(&T, A) -> T,
    requires
        forall|i: usize| #[trigger] call_requires(*make, (i,)),
        forall|link: &T, last: Option<&T>, next: Option<&T>|
            #[trigger] call_requires(*accel, (link, last, next)),
        forall|link: &T, a: A| #[trigger] call_requires(*settle, (link, a)),
    ensures
        built_up_to(*make, *accel, *settle, chain_size(length), links@),
        links@.len() == chain_size(length),
{
    let mut links: Vec<T> = Vec::new();
    let first = make(0);
    let ghost first_g = first;
    let a = accel(&first, None, None);
    let ghost a_g = a;
    let settled = settle(&first, a);
    links.push(settled);
    assert(first_link(*make, *accel, *settle, first_g, a_g, links@));
    assert(built_up_to(*make, *accel, *settle, 1, links@));
    let mut i: usize = 1;
    while i < length
        invariant
            1 <= i,
            length == 0 ==> i == 1,
            length > 0 ==> i <= length,
            links.len() == i,
            forall|j: usize| #[trigger] call_requires(*make, (j,)),
            forall|link: &T, last: Option<&T>, next: Option<&T>|
                #[trigger] call_requires(*accel, (link, last, next)),
            forall|link: &T, a: A| #[trigger] call_requires(*settle, (link, a)),
            built_up_to(*make, *accel, *settle, i as nat, links@),
        decreases length - i,
    {
        let ghost prev = links@;
        let made = make(i);
        let ghost made_g = made;
        links.push(made);
        let a = accel(&links[i], Some(&links[i - 1]), None);
        let ghost a_g = a;
        let settled = settle(&links[1], a);
        links.set(1, settled);
        assert(next_link(*make, *accel, *settle, prev, made_g, a_g, links@));
        assert(built_up_to(*make, *accel, *settle, (i + 1) as nat, links@));
        i = i + 1;
    }
    links
}

/// Every link of a generated chain has `measure` equal to `value` when every
/// link that `make` makes has it and `settle` keeps it.
pub proof fn lemma_built_measure<T, A, V, M, C, S>(
    make: M,
    accel: C,
    settle: S,
    measure: spec_fn(T) -> V,
    value: V,
    count: nat,
    links: Seq<T>,
) where
    M: Fn(usize) -> T,
    C: Fn(&T, Option<&T>, Option<&T>) -> A,
    S: Fn(&T, A) -> T,

    requires
        built_up_to(make, accel, settle, count, links),
        forall|i: usize, made: T| #[trigger] call_ensures(make, (i,), made) ==> measure(made) == value,
        forall|link: &T, a: A, settled: T|
            #[trigger] call_ensures(settle, (link, a), settled) ==> measure(settled) == measure(*link),
    ensures
        links.len() == count,
        forall|k: int| 0 <= k < count ==> #[trigger] measure(links[k]) == value,
    decreases count,
{
    lemma_built_shape(make, accel, settle, count, links);
    if count <= 1 {
        let (made, a) = choose|made: T, a: A| #[trigger] first_link(make, accel, settle, made, a, links);
        assert(measure(links[0]) == value);
    } else {
        let (prev, made, a) = choose|prev: Seq<T>, made: T, a: A|
            built_up_to(make, accel, settle, (count - 1) as nat, prev)
                && #[trigger] next_link(make, accel, settle, prev, made, a, links);
        lemma_built_measure(make, accel, settle, measure, value, (count - 1) as nat, prev);
        let grown = prev.push(made);
        assert forall|k: int| 0 <= k < count implies #[trigger] measure(links[k]) == value by {
            if k == 1 {
                assert(measure(grown[1]) == value);
            } else {
                assert(links[k] == grown[k]);
                if k < count - 1 {
                    assert(grown[k] == prev[k]);
                }
            }
        }
    }
}

/// A chain built for `length` links keeps `chain_size(length)` links (that
/// is `length` itself for a length of one or more) through any number of
/// steps.
pub proof fn lemma_built_then_stepped_length<T, A, M, C, S, F>(
    make: M,
    accel: C,
    settle: S,
    update: F,
    length: usize,
    links: Seq<T>,
    steps: nat,
    end: Seq<T>,
) where
    M: Fn(usize) -> T,
    C: Fn(&T, Option<&T>, Option<&T>) -> A,
    S: Fn(&T, A) -> T,
    F: Fn(&T, Option<&T>, Option<&T>) -> T,

    requires
        built_up_to(make, accel, settle, chain_size(length), links),
        reached_after(update, links, steps, end),
    ensures
        end.len() == chain_size(length),
        length >= 1 ==> end.len() == length,
        end[0] == links[0],
{
    lemma_built_shape(make, accel, settle, chain_size(length), links);
    lemma_anchor_fixed(update, links, steps, end);
}

/// A chain built for `length` links, from links that all have `measure`
/// equal to `value`, still has that many links, all with `measure` equal to
/// `value`, after any number of steps of an update that keeps `measure`
/// (such as the size and the mass of a link).
pub proof fn lemma_built_then_stepped_measure<T, A, V, M, C, S, F>(
    make: M,
    accel: C,
    settle: S,
    update: F,
    measure: spec_fn(T) -> V,
    value: V,
    length: usize,
    links: Seq<T>,
    steps: nat,
    end: Seq<T>,
) where
    M: Fn(usize) -> T,
    C: Fn(&T, Option<&T>, Option<&T>) -> A,
    S: Fn(&T, A) -> T,
    F: Fn(&T, Option<&T>, Option<&T>) -> T,

    requires
        built_up_to(make, accel, settle, chain_size(length), links),
        forall|i: usize, made: T| #[trigger] call_ensures(make, (i,), made) ==> measure(made) == value,
        forall|link: &T, a: A, settled: T|
            #[trigger] call_ensures(settle, (link, a), settled) ==> measure(settled) == measure(*link),
        update_keeps(update, measure),
        reached_after(update, links, steps, end),
    ensures
        end.len() == chain_size(length),
        forall|k: int| 0 <= k < end.len() ==> #[trigger] measure(end[k]) == value,
{
    lemma_built_measure(make, accel, settle, measure, value, chain_size(length), links);
    lemma_steps_keep(update, measure, links, steps, end);
    assert forall|k: int| 0 <= k < end.len() implies #[trigger] measure(end[k]) == value by {
        assert(measure(end[k]) == measure(links[k]));
    }
}

/// The last round of building a chain of `count >= 2` links: the chain
/// built one link shorter, `prev`, grows by the link `made` by `make` for
/// place `count - 1`; the acceleration `a` is what `accel` gives that newest
/// link with the link before it (`prev`'s last link) as its last neighbour
/// and no next neighbour; and link 1 of the grown chain is replaced by what
/// `settle` makes of it with `a`. Nothing else changes.
pub proof fn lemma_last_round<T, A, M, C, S>(
    make: M,
    accel: C,
    settle: S,
    count: nat,
    links: Seq<T>,
) where
    M: Fn(usize) -> T,
    C: Fn(&T, Option<&T>, Option<&T>) -> A,
    S: Fn(&T, A) -> T,

    requires
        count >= 2,
        built_up_to(make, accel, settle, count, links),
    ensures
        exists|prev: Seq<T>, made: T, a: A|
            #![trigger built_up_to(make, accel, settle, (count - 1) as nat, prev), call_ensures(make, ((count - 1) as usize,), made), call_ensures(settle, (&prev.push(made)[1], a), links[1])]
            {
                &&& built_up_to(make, accel, settle, (count - 1) as nat, prev)
                &&& prev.len() == count - 1
                &&& call_ensures(make, ((count - 1) as usize,), made)
                &&& call_ensures(accel, (&made, Some(&prev[count - 2]), None::<&T>), a)
                &&& call_ensures(settle, (&prev.push(made)[1], a), links[1])
                &&& links == prev.push(made).update(1, links[1])
            },
{
    let (prev, made, a) = choose|prev: Seq<T>, made: T, a: A|
        built_up_to(make, accel, settle, (count - 1) as nat, prev)
            && #[trigger] next_link(make, accel, settle, prev, made, a, links);
    lemma_built_shape(make, accel, settle, (count - 1) as nat, prev);
    let grown = prev.push(made);
    assert(grown[count - 1] == made);
    assert(grown[count - 2] == prev[count - 2]);
    assert(links =~= grown.update(1, links[1]));
    assert(call_ensures(make, ((count - 1) as usize,), made));
    assert(call_ensures(settle, (&prev.push(made)[1], a), links[1]));
}

/// `make` gives one link for each place.
pub open spec fn functional_make<T, M: Fn(usize) -> T>(make: M) -> bool {
    forall|i: usize, first: T, second: T|
        #![trigger call_ensures(make, (i,), first), call_ensures(make, (i,), second)]
        call_ensures(make, (i,), first) && call_ensures(make, (i,), second) ==> first == second
}

/// `accel` gives one acceleration for each link and neighbours.
pub open spec fn functional_accel<T, A, C: Fn(&T, Option<&T>, Option<&T>) -> A>(accel: C) -> bool {
    forall|link: &T, last: Option<&T>, next: Option<&T>, first: A, second: A|
        #![trigger call_ensures(accel, (link, last, next), first), call_ensures(accel, (link, last, next), second)]
        call_ensures(accel, (link, last, next), first) && call_ensures(
            accel,
            (link, last, next),
            second,
        ) ==> first == second
}

/// `settle` gives one link for each link and acceleration.
pub open spec fn functional_settle<T, A, S: Fn(&T, A) -> T>(settle: S) -> bool {
    forall|link: &T, a: A, first: T, second: T|
        #![trigger call_ensures(settle, (link, a), first), call_ensures(settle, (link, a), second)]
        call_ensures(settle, (link, a), first) && call_ensures(settle, (link, a), second) ==> first
            == second
}

/// With closures that are functions of their arguments, building a chain of
/// a given size has exactly one outcome.
pub proof fn lemma_built_determined<T, A, M, C, S>(
    make: M,
    accel: C,
    settle: S,
    count: nat,
    first: Seq<T>,
    second: Seq<T>,
) where
    M: Fn(usize) -> T,
    C: Fn(&T, Option<&T>, Option<&T>) -> A,
    S: Fn(&T, A) -> T,

    requires
        functional_make(make),
        functional_accel(accel),
        functional_settle(settle),
        built_up_to(make, accel, settle, count, first),
        built_up_to(make, accel, settle, count, second),
    ensures
        first == second,
    decreases count,
{
    lemma_built_shape(make, accel, settle, count, first);
    lemma_built_shape(make, accel, settle, count, second);
    if count <= 1 {
        let (m1, a1) = choose|made: T, a: A| #[trigger] first_link(make, accel, settle, made, a, first);
        let (m2, a2) = choose|made: T, a: A| #[trigger] first_link(make, accel, settle, made, a, second);
        assert(call_ensures(make, (0usize,), m1) && call_ensures(make, (0usize,), m2));
        assert(m1 == m2);
        assert(call_ensures(accel, (&m1, None::<&T>, None::<&T>), a1));
        assert(call_ensures(accel, (&m1, None::<&T>, None::<&T>), a2));
        assert(a1 == a2);
        assert(call_ensures(settle, (&m1, a1), first[0]));
        assert(call_ensures(settle, (&m1, a1), second[0]));
        assert(first =~= second);
    } else {
        lemma_last_round(make, accel, settle, count, first);
        lemma_last_round(make, accel, settle, count, second);
        let (p1, m1, a1) = choose|prev: Seq<T>, made: T, a: A|
            #![trigger built_up_to(make, accel, settle, (count - 1) as nat, prev), call_ensures(make, ((count - 1) as usize,), made), call_ensures(settle, (&prev.push(made)[1], a), first[1])]
            {
                &&& built_up_to(make, accel, settle, (count - 1) as nat, prev)
                &&& prev.len() == count - 1
                &&& call_ensures(make, ((count - 1) as usize,), made)
                &&& call_ensures(accel, (&made, Some(&prev[count - 2]), None::<&T>), a)
                &&& call_ensures(settle, (&prev.push(made)[1], a), first[1])
                &&& first == prev.push(made).update(1, first[1])
            };
        let (p2, m2, a2) = choose|prev: Seq<T>, made: T, a: A|
            #![trigger built_up_to(make, accel, settle, (count - 1) as nat, prev), call_ensures(make, ((count - 1) as usize,), made), call_ensures(settle, (&prev.push(made)[1], a), second[1])]
            {
                &&& built_up_to(make, accel, settle, (count - 1) as nat, prev)
                &&& prev.len() == count - 1
                &&& call_ensures(make, ((count - 1) as usize,), made)
                &&& call_ensures(accel, (&made, Some(&prev[count - 2]), None::<&T>), a)
                &&& call_ensures(settle, (&prev.push(made)[1], a), second[1])
                &&& second == prev.push(made).update(1, second[1])
            };
        lemma_built_determined(make, accel, settle, (count - 1) as nat, p1, p2);
        assert(m1 == m2);
        assert(call_ensures(accel, (&m1, Some(&p1[count - 2]), None::<&T>), a2));
        assert(a1 == a2);
        assert(call_ensures(settle, (&p1.push(m1)[1], a1), second[1]));
        assert(first[1] == second[1]);
    }
}

/// Growing a chain by one link is one more round on the chain built one link
/// shorter: with closures that are functions of their arguments, the chain
/// of `n + 1` links is the chain of `n` links with the link `make` gives for
/// place `n` pushed, and link 1 replaced by what `settle` makes of it with
/// the acceleration that `accel` gives the new link next to the last link of
/// the shorter chain, with no next neighbour.
pub proof fn lemma_grow_one<T, A, M, C, S>(
    make: M,
    accel: C,
    settle: S,
    n: nat,
    shorter: Seq<T>,
    longer: Seq<T>,
    made: T,
    a: A,
    settled: T,
) where
    M: Fn(usize) -> T,
    C: Fn(&T, Option<&T>, Option<&T>) -> A,
    S: Fn(&T, A) -> T,

    requires
        n >= 1,
        functional_make(make),
        functional_accel(accel),
        functional_settle(settle),
        built_up_to(make, accel, settle, n, shorter),
        built_up_to(make, accel, settle, n + 1, longer),
        call_ensures(make, (n as usize,), made),
        call_ensures(accel, (&made, Some(&shorter[n - 1]), None::<&T>), a),
        call_ensures(settle, (&shorter.push(made)[1], a), settled),
    ensures
        longer == shorter.push(made).update(1, settled),
{
    lemma_last_round(make, accel, settle, n + 1, longer);
    let (p, m, b) = choose|prev: Seq<T>, made: T, a: A|
        #![trigger built_up_to(make, accel, settle, ((n + 1) - 1) as nat, prev), call_ensures(make, (((n + 1) - 1) as usize,), made), call_ensures(settle, (&prev.push(made)[1], a), longer[1])]
        {
            &&& built_up_to(make, accel, settle, ((n + 1) - 1) as nat, prev)
            &&& prev.len() == (n + 1) - 1
            &&& call_ensures(make, (((n + 1) - 1) as usize,), made)
            &&& call_ensures(accel, (&made, Some(&prev[(n + 1) - 2]), None::<&T>), a)
            &&& call_ensures(settle, (&prev.push(made)[1], a), longer[1])
            &&& longer == prev.push(made).update(1, longer[1])
        };
    assert(((n + 1) - 1) as nat == n);
    lemma_built_determined(make, accel, settle, n, p, shorter);
    assert(call_ensures(make, (n as usize,), m));
    assert(m == made);
    assert(call_ensures(accel, (&made, Some(&shorter[n - 1]), None::<&T>), b));
    assert(a == b);
    assert(call_ensures(settle, (&shorter.push(made)[1], a), longer[1]));
    assert(settled == longer[1]);
}

} // verus!
