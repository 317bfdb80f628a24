use vstd::prelude::*;

verus! {

/// Upper bound (exclusive) of the randomly drawn identifiers: 16^8.
pub const ID_MAX: i64 = 4294967296;

/// Number of random candidates tried before the deterministic fallback.
pub const DRAW_LIMIT: usize = 1000;

/// Largest identifier of `ids`, or -1 where there is none.
pub open spec fn max_id(ids: Seq<i64>) -> int
    decreases ids.len(),
{
    if ids.len() == 0 {
        -1
    } else {
        let m = max_id(ids.drop_last());
        if ids.len() == 1 || ids.last() > m {
            ids.last() as int
        } else {
            m
        }
    }
}

/// The identifier chosen from the candidates `draws`: the first of them that
/// `existing` lacks, and one past the largest of `existing` where every
/// candidate collides.
pub open spec fn pick_spec(existing: Seq<i64>, draws: Seq<i64>) -> int
    decreases draws.len(),
{
    if draws.len() == 0 {
        max_id(existing) + 1
    } else if !existing.contains(draws[0]) {
        draws[0] as int
    } else {
        pick_spec(existing, draws.drop_first())
    }
}

pub proof fn lemma_max_id_bounds(ids: Seq<i64>)
    ensures
        forall|i: int| 0 <= i < ids.len() ==> ids[i] <= max_id(ids),
        ids.len() > 0 ==> ids.contains(max_id(ids) as i64),
    decreases ids.len(),
{
    if ids.len() > 0 {
        let shorter = ids.drop_last();
        lemma_max_id_bounds(shorter);
        assert forall|i: int| 0 <= i < ids.len() implies ids[i] <= max_id(ids) by {
            if i < shorter.len() {
                assert(ids[i] == shorter[i]);
            }
        }
        if shorter.len() > 0 && ids.last() <= max_id(shorter) {
            let k = choose|k: int| 0 <= k < shorter.len() && shorter[k] == max_id(shorter) as i64;
            assert(ids[k] == shorter[k]);
        } else {
            assert(ids[ids.len() - 1] == ids.last());
        }
    }
}

/// Whatever the candidates, the chosen identifier is not in `existing`.
pub proof fn lemma_pick_is_fresh(existing: Seq<i64>, draws: Seq<i64>)
    ensures
        !existing.contains(pick_spec(existing, draws) as i64) || pick_spec(existing, draws)
            > i64::MAX,
    decreases draws.len(),
{
    if draws.len() == 0 {
        lemma_max_id_bounds(existing);
    } else if existing.contains(draws[0]) {
        lemma_pick_is_fresh(existing, draws.drop_first());
    }
}

/// Relies on rand::thread_rng and rand::Rng::gen_range: a value drawn from
/// the half-open range `0..max`. `gen_range` panics on an empty range,
/// which `requires` rules out; the thread generator also panics where the
/// operating system's random source fails when it seeds or reseeds.
#[verifier::external_body]
fn draw_below(max: i64) -> (r: i64)
    requires
        max > 0,
    ensures
        0 <= r < max,
{
    rand::Rng::gen_range(&mut rand::thread_rng(), 0..max)
}

pub(crate) fn contains_id(ids: &Vec<i64>, id: i64) -> (r: bool)
    ensures
        r == ids@.contains(id),
{
    let mut i: usize = 0;
    while i < ids.len()
        invariant
            0 <= i <= ids.len(),
            forall|k: int| 0 <= k < i ==> ids@[k] != id,
        decreases ids.len() - i,
    {
        if ids[i] == id {
            return true;
        }
        i = i + 1;
    }
    false
}

fn fallback_id(existing: &Vec<i64>) -> (r: i64)
    requires
        forall|i: int| 0 <= i < existing@.len() ==> existing@[i] < i64::MAX,
    ensures
        r == max_id(existing@) + 1,
{
    let mut m: i64 = -1;
    let mut i: usize = 0;
    while i < existing.len()
        invariant
            0 <= i <= existing.len(),
            m == max_id(existing@.subrange(0, i as int)),
            m < i64::MAX,
            forall|k: int| 0 <= k < existing@.len() ==> existing@[k] < i64::MAX,
        decreases existing.len() - i,
    {
        assert(existing@.subrange(0, i + 1).drop_last() == existing@.subrange(0, i as int));
        if i == 0 || existing[i] > m {
            m = existing[i];
        }
        i = i + 1;
    }
    assert(existing@.subrange(0, existing@.len() as int) == existing@);
    m + 1
}

/// Chooses an identifier from the candidates `draws` (see `pick_spec`).
pub fn pick_id(existing: &Vec<i64>, draws: &Vec<i64>) -> (r: i64)
    requires
        forall|i: int| 0 <= i < existing@.len() ==> existing@[i] < i64::MAX,
    ensures
        r == pick_spec(existing@, draws@),
        !existing@.contains(r),
{
    proof {
        lemma_pick_is_fresh(existing@, draws@);
        lemma_max_id_bounds(existing@);
    }
    assert(draws@.subrange(0, draws@.len() as int) == draws@);
    let mut i: usize = 0;
    while i < draws.len()
        invariant
            0 <= i <= draws.len(),
            pick_spec(existing@, draws@) == pick_spec(existing@, draws@.subrange(i as int, draws@.len() as int)),
        decreases draws.len() - i,
    {
        let d = draws[i];
        let ghost rest = draws@.subrange(i as int, draws@.len() as int);
        assert(rest[0] == d);
        if !contains_id(existing, d) {
            return d;
        }
        assert(rest.drop_first() == draws@.subrange(i + 1, draws@.len() as int));
        i = i + 1;
    }
    fallback_id(existing)
}

/// Where some candidate of `a` is free, candidates after `a` do not matter.
pub proof fn lemma_pick_prefix(existing: Seq<i64>, a: Seq<i64>, b: Seq<i64>, i: int)
    requires
        0 <= i < a.len(),
        !existing.contains(a[i]),
    ensures
        pick_spec(existing, a + b) == pick_spec(existing, a),
    decreases a.len(),
{
    assert((a + b)[0] == a[0]);
    if existing.contains(a[0]) {
        assert((a + b).drop_first() == a.drop_first() + b);
        assert(a.drop_first()[i - 1] == a[i]);
        lemma_pick_prefix(existing, a.drop_first(), b, i - 1);
    }
}

/// A fresh identifier for a registry that holds `existing`: random
/// candidates below `max` are drawn one at a time, up to `DRAW_LIMIT` of
/// them, and `pick_id` chooses among them: the first one absent from
/// `existing`, or, where all collide, one past the largest of `existing`.
/// Whatever the draws, the result is the choice over some full run of
/// `DRAW_LIMIT` candidates below `max`.
pub fn generate_id(existing: &Vec<i64>, max: i64) -> (r: i64)
    requires
        max > 0,
        forall|i: int| 0 <= i < existing@.len() ==> existing@[i] < i64::MAX,
    ensures
        !existing@.contains(r),
        exists|d: Seq<i64>|
            d.len() == DRAW_LIMIT && (forall|i: int| 0 <= i < d.len() ==> 0 <= #[trigger] d[i] < max)
                && r == pick_spec(existing@, d),
{
    let mut draws: Vec<i64> = Vec::new();
    let mut free = false;
    while draws.len() < DRAW_LIMIT && !free
        invariant
            draws@.len() <= DRAW_LIMIT,
            max > 0,
            forall|i: int| 0 <= i < draws@.len() ==> 0 <= #[trigger] draws@[i] < max,
            !free ==> forall|i: int| 0 <= i < draws@.len() ==> existing@.contains(#[trigger] draws@[i]),
            free ==> draws@.len() > 0 && !existing@.contains(draws@.last()),
        decreases DRAW_LIMIT - draws@.len(),
    {
        let d = draw_below(max);
        draws.push(d);
        if !contains_id(existing, d) {
            free = true;
        }
    }
    let r = pick_id(existing, &draws);
    proof {
        let pad = Seq::new((DRAW_LIMIT - draws@.len()) as nat, |i: int| 0i64);
        let d = draws@ + pad;
        if free {
            lemma_pick_prefix(existing@, draws@, pad, draws@.len() - 1);
        } else {
            assert(d == draws@);
        }
        assert(forall|i: int| 0 <= i < d.len() ==> 0 <= #[trigger] d[i] < max) by {
            assert forall|i: int| 0 <= i < d.len() implies 0 <= #[trigger] d[i] < max by {
                if i >= draws@.len() {
                    assert(d[i] == pad[i - draws@.len()]);
                }
            }
        }
    }
    r
}

} // verus!
