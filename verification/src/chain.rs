use vstd::prelude::*;

verus! {

/// `update` may be called on any link with any neighbours.
pub open spec fn total_update<T, F: Fn(&T, Option<&T>, Option<&T>) -> T>(update: F) -> bool {
    forall|link: &T, last: Option<&T>, next: Option<&T>|
        #[trigger] call_requires(update, (link, last, next))
}

/// `new` is one synchronous step of `old`: the anchor (link 0) is kept, every
/// inner link is updated from its two neighbours in `old`, and the last link
/// from the link before it in `old` alone.
pub open spec fn stepped<T, F: Fn(&T, Option<&T>, Option<&T>) -> T>(
    update: F,
    old: Seq<T>,
    new: Seq<T>,
) -> bool {
    &&& old.len() >= 2
    &&& new.len() == old.len()
    &&& new[0] == old[0]
    &&& forall|i: int|
        1 <= i < old.len() - 1 ==> call_ensures(
            update,
            (&old[i], Some(&old[i - 1]), Some(&old[i + 1])),
            #[trigger] new[i],
        )
    &&& call_ensures(
        update,
        (&old[old.len() - 1], Some(&old[old.len() - 2]), None),
        new[old.len() - 1],
    )
}

/// Advances every link but the anchor by one step of `update`, all of them
/// reading the chain as it was before the step.
pub fn step_all<T, F: Fn(&T, Option<&T>, Option<&T>) -> T>(chain: Vec<T>, update: &F) -> (next_chain: Vec<T>)
    requires
        chain.len() >= 2,
        total_update(*update),
    ensures
        stepped(*update, chain@, next_chain@),
{
    let n = chain.len();
    let mut fresh: Vec<T> = Vec::new();
    let mut node: usize = 1;
    while node < n - 1
        invariant
            n == chain.len(),
            n >= 2,
            1 <= node <= n - 1,
            total_update(*update),
            fresh.len() == node - 1,
            forall|i: int|
                1 <= i < node ==> call_ensures(
                    *update,
                    (&chain@[i], Some(&chain@[i - 1]), Some(&chain@[i + 1])),
                    #[trigger] fresh@[i - 1],
                ),
        decreases n - node,
    {
        let moved = update(&chain[node], Some(&chain[node - 1]), Some(&chain[node + 1]));
        fresh.push(moved);
        node = node + 1;
    }
    let moved = update(&chain[n - 1], Some(&chain[n - 2]), None);
    fresh.push(moved);
    let mut next_chain = chain;
    next_chain.truncate(1);
    next_chain.append(&mut fresh);
    next_chain
}


/// `end` is what `steps` synchronous steps of `update` can make of `start`.
pub open spec fn reached_after<T, F: Fn(&T, Option<&T>, Option<&T>) -> T>(
    update: F,
    start: Seq<T>,
    steps: nat,
    end: Seq<T>,
) -> bool
    decreases steps,
{
    if steps == 0 {
        end == start
    } else {
        exists|mid: Seq<T>|
            reached_after(update, start, (steps - 1) as nat, mid) && #[trigger] stepped(
                update,
                mid,
                end,
            )
    }
}

/// Runs `speed` steps of the chain one after the other, each from the chain
/// that the one before left.
pub fn step_many<T, F: Fn(&T, Option<&T>, Option<&T>) -> T>(chain: Vec<T>, speed: u32, update: &F) -> (next_chain: Vec<T>)
    requires
        speed == 0 || chain.len() >= 2,
        total_update(*update),
    ensures
        reached_after(*update, chain@, speed as nat, next_chain@),
{
    let ghost start = chain@;
    let mut current = chain;
    let mut done: u32 = 0;
    while done < speed
        invariant
            done <= speed,
            speed == 0 || current.len() >= 2,
            total_update(*update),
            reached_after(*update, start, done as nat, current@),
        decreases speed - done,
    {
        let ghost before = current@;
        current = step_all(current, update);
        assert(stepped(*update, before, current@));
        assert(reached_after(*update, start, (done + 1) as nat, current@));
        done = done + 1;
    }
    current
}

/// The anchor never moves and the chain keeps its length, however many
/// steps are taken.
pub proof fn lemma_anchor_fixed<T, F: Fn(&T, Option<&T>, Option<&T>) -> T>(
    update: F,
    start: Seq<T>,
    steps: nat,
    end: Seq<T>,
)
    requires
        reached_after(update, start, steps, end),
        start.len() >= 1,
    ensures
        end.len() == start.len(),
        end[0] == start[0],
    decreases steps,
{
    if steps > 0 {
        let mid = choose|mid: Seq<T>|
            reached_after(update, start, (steps - 1) as nat, mid) && #[trigger] stepped(
                update,
                mid,
                end,
            );
        lemma_anchor_fixed(update, start, (steps - 1) as nat, mid);
    }
}

/// Taking `first` steps and then `second` more is taking `first + second`
/// steps.
pub proof fn lemma_steps_compose<T, F: Fn(&T, Option<&T>, Option<&T>) -> T>(
    update: F,
    start: Seq<T>,
    first: nat,
    mid: Seq<T>,
    second: nat,
    end: Seq<T>,
)
    requires
        reached_after(update, start, first, mid),
        reached_after(update, mid, second, end),
    ensures
        reached_after(update, start, first + second, end),
    decreases second,
{
    if second > 0 {
        let before = choose|before: Seq<T>|
            reached_after(update, mid, (second - 1) as nat, before) && #[trigger] stepped(
                update,
                before,
                end,
            );
        lemma_steps_compose(update, start, first, mid, (second - 1) as nat, before);
        assert(((first + second) - 1) as nat == first + (second - 1) as nat);
        assert(stepped(update, before, end));
    }
}

/// `update` gives one result for each link and neighbours, as a function
/// of its arguments does.
pub open spec fn deterministic_update<T, F: Fn(&T, Option<&T>, Option<&T>) -> T>(update: F) -> bool {
    forall|link: &T, last: Option<&T>, next: Option<&T>, first: T, second: T|
        #![trigger call_ensures(update, (link, last, next), first), call_ensures(update, (link, last, next), second)]
        call_ensures(update, (link, last, next), first) && call_ensures(
            update,
            (link, last, next),
            second,
        ) ==> first == second
}

/// `update` keeps `measure` of the link it moves.
pub open spec fn update_keeps<T, V, F: Fn(&T, Option<&T>, Option<&T>) -> T>(
    update: F,
    measure: spec_fn(T) -> V,
) -> bool {
    forall|link: &T, last: Option<&T>, next: Option<&T>, moved: T|
        #[trigger] call_ensures(update, (link, last, next), moved) ==> measure(moved) == measure(
            *link,
        )
}

/// A link's new state depends only on its own state and its neighbours'
/// before the step: two chains that agree around link `i` give it the same
/// new state, when the update is a function of its arguments.
pub proof fn lemma_step_local<T, F: Fn(&T, Option<&T>, Option<&T>) -> T>(
    update: F,
    a: Seq<T>,
    new_a: Seq<T>,
    b: Seq<T>,
    new_b: Seq<T>,
    i: int,
)
    requires
        deterministic_update(update),
        stepped(update, a, new_a),
        stepped(update, b, new_b),
        a.len() == b.len(),
        1 <= i < a.len(),
        forall|j: int| i - 1 <= j <= i + 1 && j < a.len() ==> #[trigger] a[j] == b[j],
    ensures
        new_a[i] == new_b[i],
{
    assert(a[i - 1] == b[i - 1]);
    assert(a[i] == b[i]);
    if i < a.len() - 1 {
        assert(a[i + 1] == b[i + 1]);
        assert(call_ensures(update, (&a[i], Some(&a[i - 1]), Some(&a[i + 1])), new_a[i]));
        assert(call_ensures(update, (&b[i], Some(&b[i - 1]), Some(&b[i + 1])), new_b[i]));
    }
}

/// With an update that is a function of its arguments, one step of a chain
/// has exactly one outcome.
pub proof fn lemma_step_determined<T, F: Fn(&T, Option<&T>, Option<&T>) -> T>(
    update: F,
    old: Seq<T>,
    first: Seq<T>,
    second: Seq<T>,
)
    requires
        deterministic_update(update),
        stepped(update, old, first),
        stepped(update, old, second),
    ensures
        first == second,
{
    assert forall|i: int| 0 <= i < old.len() implies #[trigger] first[i] == second[i] by {
        if i >= 1 {
            lemma_step_local(update, old, first, old, second, i);
        }
    }
    assert(first =~= second);
}

/// With an update that is a function of its arguments, any number of steps
/// of a chain has exactly one outcome.
pub proof fn lemma_steps_determined<T, F: Fn(&T, Option<&T>, Option<&T>) -> T>(
    update: F,
    start: Seq<T>,
    steps: nat,
    first: Seq<T>,
    second: Seq<T>,
)
    requires
        deterministic_update(update),
        reached_after(update, start, steps, first),
        reached_after(update, start, steps, second),
    ensures
        first == second,
    decreases steps,
{
    if steps > 0 {
        let mid1 = choose|mid: Seq<T>|
            reached_after(update, start, (steps - 1) as nat, mid) && #[trigger] stepped(
                update,
                mid,
                first,
            );
        let mid2 = choose|mid: Seq<T>|
            reached_after(update, start, (steps - 1) as nat, mid) && #[trigger] stepped(
                update,
                mid,
                second,
            );
        lemma_steps_determined(update, start, (steps - 1) as nat, mid1, mid2);
        lemma_step_determined(update, mid1, first, second);
    }
}

/// Whatever the update keeps of a link, a step keeps of every link (the
/// anchor is not moved at all).
pub proof fn lemma_step_keeps<T, V, F: Fn(&T, Option<&T>, Option<&T>) -> T>(
    update: F,
    measure: spec_fn(T) -> V,
    old: Seq<T>,
    new: Seq<T>,
)
    requires
        update_keeps(update, measure),
        stepped(update, old, new),
    ensures
        forall|i: int| 0 <= i < old.len() ==> #[trigger] measure(new[i]) == measure(old[i]),
{
    assert forall|i: int| 0 <= i < old.len() implies #[trigger] measure(new[i]) == measure(
        old[i],
    ) by {
        if 1 <= i < old.len() - 1 {
            assert(call_ensures(update, (&old[i], Some(&old[i - 1]), Some(&old[i + 1])), new[i]));
        }
    }
}

/// Whatever the update keeps of a link, any number of steps keeps of every
/// link.
pub proof fn lemma_steps_keep<T, V, F: Fn(&T, Option<&T>, Option<&T>) -> T>(
    update: F,
    measure: spec_fn(T) -> V,
    start: Seq<T>,
    steps: nat,
    end: Seq<T>,
)
    requires
        update_keeps(update, measure),
        reached_after(update, start, steps, end),
    ensures
        end.len() == start.len(),
        forall|i: int| 0 <= i < start.len() ==> #[trigger] measure(end[i]) == measure(start[i]),
    decreases steps,
{
    if steps > 0 {
        let mid = choose|mid: Seq<T>|
            reached_after(update, start, (steps - 1) as nat, mid) && #[trigger] stepped(
                update,
                mid,
                end,
            );
        lemma_steps_keep(update, measure, start, (steps - 1) as nat, mid);
        lemma_step_keeps(update, measure, mid, end);
        assert forall|i: int| 0 <= i < start.len() implies #[trigger] measure(end[i]) == measure(
            start[i],
        ) by {
            assert(measure(end[i]) == measure(mid[i]));
        }
    }
}

} // verus!
