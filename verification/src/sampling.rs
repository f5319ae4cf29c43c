//! Choosing the next token from raw scores.
//!
//! Scores are single precision numbers, held as their bit patterns.

use vstd::prelude::*;

use crate::activation::{softmax, softmaxed};
use crate::ieee::{
    at_least_single, greater_single, is_nan_single, single_at_least, single_greater, single_is_nan, single_key, single_rank,
    SINGLE_ONE,
};
use crate::numbers::{zero, Arithmetic, Term};
use crate::rows::make_row;
use crate::sorting::{comes_first, lemma_one_order, lemma_order_exists, order, sort_places, sorted_places, Descending};

verus! {

/// Whether none of the numbers is undefined.
pub open spec fn all_numbers(x: Seq<u32>) -> bool {
    forall|i: int| 0 <= i < x.len() ==> !single_is_nan(#[trigger] x[i])
}

/// The place that a scan over the first `k` numbers ends with when it moves on unless the number it
/// stands at is greater: the last of the greatest numbers.
pub open spec fn last_greatest(x: Seq<u32>, k: nat) -> nat
    decreases k,
{
    if k <= 1 {
        0
    } else {
        let best = last_greatest(x, (k - 1) as nat);
        if single_greater(x[best as int], x[k - 1]) {
            best
        } else {
            (k - 1) as nat
        }
    }
}

/// The last place of the greatest number; zero if there is none.
pub fn find_last_greatest(x: &Vec<u32>) -> (r: usize)
    ensures
        r == last_greatest(x@, x@.len()),
        x@.len() > 0 ==> r < x@.len(),
{
    let mut best: usize = 0;
    let mut k: usize = 1;
    while k < x.len()
        invariant
            1 <= k,
            x@.len() > 0 ==> k <= x@.len() && best < k,
            x@.len() == 0 ==> best == 0 && k == 1,
            x@.len() > 0 ==> best == last_greatest(x@, k as nat),
        decreases x@.len() - k,
    {
        if !greater_single(x[best], x[k]) {
            best = k;
        }
        k += 1;
    }
    best
}

/// Numbers to be ordered from the greatest down.
pub open spec fn descending(x: Seq<u32>) -> Seq<Descending> {
    x.map_values(|v: u32| Descending((single_rank(v) + 0x8000_0000) as u64))
}

/// The places of the numbers, from the greatest number down; of equal numbers the first place comes
/// first.
pub open spec fn by_size(x: Seq<u32>) -> Seq<usize> {
    order(descending(x))
}

fn sort_by_size(x: &Vec<u32>) -> (r: Vec<usize>)
    ensures
        r@ == by_size(x@),
        sorted_places(descending(x@), r@),
{
    let mut keys: Vec<Descending> = Vec::new();
    let mut i: usize = 0;
    while i < x.len()
        invariant
            i <= x@.len(),
            keys@ == descending(x@).take(i as int),
        decreases x@.len() - i,
    {
        keys.push(Descending(single_key(x[i])));
        i += 1;
        assert(keys@ =~= descending(x@).take(i as int));
    }
    assert(keys@ =~= descending(x@));
    let places = sort_places(&keys);
    proof {
        lemma_one_order(descending(x@), places@);
    }
    places
}

/// Every score divided by the temperature.
pub open spec fn scaled<N: Arithmetic<Num = u32>>(n: &N, logits: Seq<u32>, temperature: u32) -> Seq<u32> {
    logits.map_values(|x: u32| n.value(Term::Div(x, temperature)))
}

/// The numbers with all that are less than the `k`-th greatest set to `low`; `k` is taken as one if
/// it is zero, and nothing is changed if there are no more than `k` numbers.
pub open spec fn keep_top_k(x: Seq<u32>, k: nat, low: u32) -> Seq<u32> {
    let k = if k == 0 {
        1
    } else {
        k
    };
    if k < x.len() {
        let threshold = x[by_size(x)[k - 1] as int];
        x.map_values(
            |v: u32|
                if single_greater(threshold, v) {
                    low
                } else {
                    v
                },
        )
    } else {
        x
    }
}

/// The sum of the first `k` numbers, added up from zero.
pub open spec fn running_sum<N: Arithmetic<Num = u32>>(n: &N, x: Seq<u32>, k: nat) -> u32
    decreases k,
{
    if k == 0 {
        zero(n)
    } else {
        n.value(Term::Add(running_sum(n, x, (k - 1) as nat), x[k - 1]))
    }
}

/// How many of the numbers, `from` of them or more, it takes for their sum to reach `p`; all, if it
/// never does.
pub open spec fn reaching<N: Arithmetic<Num = u32>>(n: &N, x: Seq<u32>, p: u32, from: nat) -> nat
    decreases x.len() - from,
{
    if from >= x.len() {
        x.len()
    } else if single_at_least(running_sum(n, x, from + 1), p) {
        from + 1
    } else {
        reaching(n, x, p, from + 1)
    }
}

/// The probabilities, from the greatest down.
pub open spec fn ranked(probs: Seq<u32>) -> Seq<u32> {
    by_size(probs).map_values(|place: usize| probs[place as int])
}

/// The places of the most probable numbers that together reach `p`.
pub open spec fn nucleus<N: Arithmetic<Num = u32>>(n: &N, probs: Seq<u32>, p: u32) -> Seq<usize> {
    let size = reaching(n, ranked(probs), p, 0);
    by_size(probs).take(
        if size == 0 {
            1
        } else {
            size as int
        },
    )
}

/// The scores with all outside the nucleus set to `low`.
pub open spec fn keep_nucleus<N: Arithmetic<Num = u32>>(n: &N, x: Seq<u32>, p: u32, low: u32) -> Seq<u32> {
    let kept = nucleus(n, softmaxed(n, x), p);
    Seq::new(
        x.len(),
        |i: int|
            if kept.contains(i as usize) {
                x[i]
            } else {
                low
            },
    )
}

/// Whether a nucleus size is one that filters: between zero and one.
pub open spec fn filters(p: u32) -> bool {
    single_greater(p, 0) && single_greater(SINGLE_ONE, p)
}

/// The first place, `from` or later, at which the running sum exceeds the draw; `None` if it never
/// does.
pub open spec fn hit<N: Arithmetic<Num = u32>>(n: &N, probs: Seq<u32>, draw: u32, from: nat) -> Option<nat>
    decreases probs.len() - from,
{
    if from >= probs.len() {
        None
    } else if single_greater(running_sum(n, probs, from + 1), draw) {
        Some(from)
    } else {
        hit(n, probs, draw, from + 1)
    }
}

/// The place that a draw picks: the first at which the running sum exceeds it, or the most probable
/// one.
pub open spec fn picked<N: Arithmetic<Num = u32>>(n: &N, probs: Seq<u32>, draw: u32) -> nat {
    match hit(n, probs, draw, 0) {
        Some(place) => place,
        None => last_greatest(probs, probs.len()),
    }
}

/// The scores after the first filter.
pub open spec fn after_top_k<N: Arithmetic<Num = u32>>(n: &N, x: Seq<u32>, top_k: Option<usize>) -> Seq<u32> {
    match top_k {
        Some(k) => keep_top_k(x, k as nat, n.value(Term::NegInfinity)),
        None => x,
    }
}

/// The scores after the second filter.
pub open spec fn after_top_p<N: Arithmetic<Num = u32>>(n: &N, x: Seq<u32>, top_p: Option<u32>) -> Seq<u32> {
    match top_p {
        Some(p) => if filters(p) {
            keep_nucleus(n, x, p, n.value(Term::NegInfinity))
        } else {
            x
        },
        None => x,
    }
}

/// Whether the first filter looks at the order of the scores.
pub open spec fn selects_k(len: nat, top_k: Option<usize>) -> bool {
    match top_k {
        Some(k) => k < len && 1 < len,
        None => false,
    }
}

/// Whether the temperature is so low that the best score is taken.
pub open spec fn greedy<N: Arithmetic<Num = u32>>(n: &N, temperature: u32) -> bool {
    single_at_least(n.value(Term::Decimal(1, 6)), temperature)
}

/// The scores that the draw is made from.
pub open spec fn filtered<N: Arithmetic<Num = u32>>(
    n: &N,
    logits: Seq<u32>,
    temperature: u32,
    top_k: Option<usize>,
    top_p: Option<u32>,
) -> Seq<u32> {
    after_top_p(n, after_top_k(n, scaled(n, logits, temperature), top_k), top_p)
}

fn scale<N: Arithmetic<Num = u32>>(n: &N, logits: &Vec<u32>, temperature: u32) -> (r: Vec<u32>)
    requires
        n.wf(),
    ensures
        r@ == scaled(n, logits@, temperature),
{
    let mut out: Vec<u32> = Vec::new();
    let mut i: usize = 0;
    while i < logits.len()
        invariant
            n.wf(),
            i <= logits@.len(),
            out@ == scaled(n, logits@, temperature).take(i as int),
        decreases logits@.len() - i,
    {
        out.push(n.eval(Term::Div(logits[i], temperature)));
        i += 1;
        assert(out@ =~= scaled(n, logits@, temperature).take(i as int));
    }
    assert(out@ =~= scaled(n, logits@, temperature));
    out
}

/// Sets all numbers that are less than the `k`-th greatest to `low`.
pub fn filter_top_k(x: &mut Vec<u32>, k: usize, low: u32)
    requires
        selects_k(old(x)@.len(), Some(k)) ==> all_numbers(old(x)@),
    ensures
        final(x)@ == keep_top_k(old(x)@, k as nat, low),
{
    let k: usize = if k == 0 {
        1
    } else {
        k
    };
    if k < x.len() {
        let ghost before = x@;
        let ghost goal = keep_top_k(before, k as nat, low);
        let places = sort_by_size(x);
        let threshold: u32 = x[places[k - 1]];
        let mut i: usize = 0;
        while i < x.len()
            invariant
                i <= x@.len(),
                x@.len() == before.len(),
                goal.len() == before.len(),
                forall|j: int|
                    0 <= j < before.len() ==> #[trigger] goal[j] == if single_greater(threshold, before[j]) {
                        low
                    } else {
                        before[j]
                    },
                forall|j: int| 0 <= j < i ==> #[trigger] x@[j] == goal[j],
                forall|j: int| i <= j < x@.len() ==> #[trigger] x@[j] == before[j],
            decreases x@.len() - i,
        {
            if greater_single(threshold, x[i]) {
                x[i] = low;
            }
            i += 1;
        }
        assert(x@ =~= goal);
    }
}

fn nucleus_size<N: Arithmetic<Num = u32>>(n: &N, probs: &Vec<u32>, places: &Vec<usize>, p: u32) -> (r: usize)
    requires
        n.wf(),
        places@ == by_size(probs@),
        sorted_places(descending(probs@), places@),
    ensures
        r == reaching(n, ranked(probs@), p, 0),
        r <= places@.len(),
{
    let ghost list = ranked(probs@);
    let mut cumulative: u32 = n.eval(Term::Decimal(0, 0));
    let mut i: usize = 0;
    while i < places.len()
        invariant
            n.wf(),
            i <= places@.len(),
            places@ == by_size(probs@),
            sorted_places(descending(probs@), places@),
            list == ranked(probs@),
            cumulative == running_sum(n, list, i as nat),
            reaching(n, list, p, 0) == reaching(n, list, p, i as nat),
        decreases places@.len() - i,
    {
        let place: usize = places[i];
        assert(0 <= places@[i as int] < descending(probs@).len());
        assert(list[i as int] == probs@[place as int]);
        cumulative = n.eval(Term::Add(cumulative, probs[place]));
        if at_least_single(cumulative, p) {
            return i + 1;
        }
        i += 1;
    }
    places.len()
}

/// Sets all scores outside the nucleus of size `p` to `low`.
pub fn filter_top_p<N: Arithmetic<Num = u32>>(n: &N, x: &mut Vec<u32>, p: u32, low: u32)
    requires
        n.wf(),
        old(x)@.len() > 0,
        all_numbers(softmaxed(n, old(x)@)),
    ensures
        final(x)@ == keep_nucleus(n, old(x)@, p, low),
{
    let ghost before = x@;
    let ghost goal = keep_nucleus(n, before, p, low);
    let probs = softmax(n, x);
    let places = sort_by_size(&probs);
    let size: usize = nucleus_size(n, &probs, &places, p);
    let cut_off: usize = if size == 0 {
        1
    } else {
        size
    };
    let ghost kept = nucleus(n, probs@, p);
    assert(kept == places@.take(cut_off as int));
    let len: usize = x.len();
    let mut keep: Vec<bool> = make_row(false, len);
    let mut j: usize = 0;
    while j < cut_off
        invariant
            keep@.len() == len,
            j <= cut_off <= places@.len(),
            keep@.len() == probs@.len(),
            sorted_places(descending(probs@), places@),
            forall|i: int| 0 <= i < keep@.len() ==> #[trigger] keep@[i] == places@.take(j as int).contains(i as usize),
        decreases cut_off - j,
    {
        let place: usize = places[j];
        assert(0 <= places@[j as int] < descending(probs@).len());
        let ghost seen = places@.take(j as int);
        let ghost now = places@.take(j + 1);
        assert(now =~= seen.push(place));
        keep[place] = true;
        assert forall|i: int| 0 <= i < keep@.len() implies #[trigger] keep@[i] == now.contains(i as usize) by {
            if i == place {
                assert(now[j as int] == i as usize);
            } else if seen.contains(i as usize) {
                let m = choose|m: int| 0 <= m < seen.len() && seen[m] == i as usize;
                assert(now[m] == i as usize);
            } else if now.contains(i as usize) {
                let m = choose|m: int| 0 <= m < now.len() && now[m] == i as usize;
                assert(m < j ==> seen[m] == i as usize);
            }
        }
        j += 1;
    }
    let mut i: usize = 0;
    while i < x.len()
        invariant
            i <= x@.len(),
            x@.len() == before.len(),
            keep@.len() == before.len(),
            goal.len() == before.len(),
            forall|m: int| 0 <= m < before.len() ==> #[trigger] keep@[m] == kept.contains(m as usize),
            forall|m: int|
                0 <= m < before.len() ==> #[trigger] goal[m] == if kept.contains(m as usize) {
                    before[m]
                } else {
                    low
                },
            forall|m: int| 0 <= m < i ==> #[trigger] x@[m] == goal[m],
            forall|m: int| i <= m < x@.len() ==> #[trigger] x@[m] == before[m],
        decreases x@.len() - i,
    {
        if !keep[i] {
            x[i] = low;
        }
        i += 1;
    }
    assert(x@ =~= goal);
}

/// Picks a place by a draw between zero and one: the first at which the running sum of the
/// probabilities exceeds the draw, or the most probable one.
pub fn pick<N: Arithmetic<Num = u32>>(n: &N, probs: &Vec<u32>, draw: u32) -> (r: usize)
    requires
        n.wf(),
    ensures
        r == picked(n, probs@, draw),
        probs@.len() > 0 ==> r < probs@.len(),
{
    let mut cumulative: u32 = n.eval(Term::Decimal(0, 0));
    let mut i: usize = 0;
    while i < probs.len()
        invariant
            n.wf(),
            i <= probs@.len(),
            cumulative == running_sum(n, probs@, i as nat),
            hit(n, probs@, draw, 0) == hit(n, probs@, draw, i as nat),
        decreases probs@.len() - i,
    {
        cumulative = n.eval(Term::Add(cumulative, probs[i]));
        if greater_single(cumulative, draw) {
            return i;
        }
        i += 1;
    }
    find_last_greatest(probs)
}

/// Whether a token can be chosen: what is ranked consists of numbers, and where probable tokens are
/// looked for there is one.
pub open spec fn can_choose<N: Arithmetic<Num = u32>>(
    n: &N,
    logits: Seq<u32>,
    temperature: u32,
    top_k: Option<usize>,
    top_p: Option<u32>,
) -> bool {
    let x = scaled(n, logits, temperature);
    !greedy(n, temperature) ==> {
        &&& selects_k(logits.len(), top_k) ==> all_numbers(x)
        &&& (top_p matches Some(p) && filters(p)) ==> logits.len() > 0 && all_numbers(
            softmaxed(n, after_top_k(n, x, top_k)),
        )
    }
}

fn has_only_numbers(x: &Vec<u32>) -> (r: bool)
    ensures
        r == all_numbers(x@),
{
    let mut i: usize = 0;
    while i < x.len()
        invariant
            i <= x@.len(),
            forall|j: int| 0 <= j < i ==> !single_is_nan(#[trigger] x@[j]),
        decreases x@.len() - i,
    {
        if is_nan_single(x[i]) {
            return false;
        }
        i += 1;
    }
    true
}

/// Tells whether `sample_next_token` can choose a token.
pub fn can_sample<N: Arithmetic<Num = u32>>(
    n: &N,
    logits: &Vec<u32>,
    temperature: u32,
    top_k: Option<usize>,
    top_p: Option<u32>,
) -> (r: bool)
    requires
        n.wf(),
    ensures
        r == can_choose(n, logits@, temperature, top_k, top_p),
{
    if at_least_single(n.eval(Term::Decimal(1, 6)), temperature) {
        return true;
    }
    let mut x = scale(n, logits, temperature);
    match top_k {
        Some(k) => {
            if k < x.len() && 1 < x.len() && !has_only_numbers(&x) {
                return false;
            }
            filter_top_k(&mut x, k, n.eval(Term::NegInfinity));
        },
        None => {},
    }
    match top_p {
        Some(p) => {
            if greater_single(p, 0) && greater_single(SINGLE_ONE, p) {
                return x.len() > 0 && has_only_numbers(&softmax(n, &x));
            }
        },
        None => {},
    }
    true
}

/// The next token: the best one if the temperature is close to zero, else the one that `draw` picks
/// after the scores were scaled and filtered.
pub open spec fn chosen<N: Arithmetic<Num = u32>>(
    n: &N,
    logits: Seq<u32>,
    temperature: u32,
    top_k: Option<usize>,
    top_p: Option<u32>,
    draw: u32,
) -> nat {
    if greedy(n, temperature) {
        last_greatest(logits, logits.len())
    } else {
        picked(n, softmaxed(n, filtered(n, logits, temperature, top_k, top_p)), draw)
    }
}

/// Chooses the next token: the best one if the temperature is close to zero, else the one that
/// `draw` picks after the scores were scaled and filtered.
pub fn sample_next_token<N: Arithmetic<Num = u32>>(
    n: &N,
    logits: &Vec<u32>,
    temperature: u32,
    top_k: Option<usize>,
    top_p: Option<u32>,
    draw: u32,
) -> (r: usize)
    requires
        n.wf(),
        can_choose(n, logits@, temperature, top_k, top_p),
    ensures
        r == chosen(n, logits@, temperature, top_k, top_p, draw),
        logits@.len() > 0 ==> r < logits@.len(),
{
    if at_least_single(n.eval(Term::Decimal(1, 6)), temperature) {
        return find_last_greatest(logits);
    }
    let low: u32 = n.eval(Term::NegInfinity);
    let mut x = scale(n, logits, temperature);
    match top_k {
        Some(k) => {
            filter_top_k(&mut x, k, low);
        },
        None => {},
    }
    match top_p {
        Some(p) => {
            if greater_single(p, 0) && greater_single(SINGLE_ONE, p) {
                filter_top_p(n, &mut x, p, low);
            }
        },
        None => {},
    }
    let probs = softmax(n, &x);
    pick(n, &probs, draw)
}

/// A greedy choice has no greater score beside it, and a smaller one at every later place.
pub proof fn law_greedy_takes_last_best(x: Seq<u32>)
    requires
        x.len() > 0,
        all_numbers(x),
    ensures
        ({
            let best = last_greatest(x, x.len());
            &&& best < x.len()
            &&& forall|i: int| 0 <= i < x.len() ==> single_at_least(x[best as int], #[trigger] x[i])
            &&& forall|i: int| best < i < x.len() ==> single_greater(x[best as int], #[trigger] x[i])
        }),
{
    lemma_last_greatest(x, x.len());
}

proof fn lemma_last_greatest(x: Seq<u32>, k: nat)
    requires
        0 < k <= x.len(),
        all_numbers(x),
    ensures
        last_greatest(x, k) < k,
        forall|i: int| 0 <= i < k ==> single_at_least(x[last_greatest(x, k) as int], #[trigger] x[i]),
        forall|i: int| last_greatest(x, k) < i < k ==> single_greater(x[last_greatest(x, k) as int], #[trigger] x[i]),
    decreases k,
{
    if k > 1 {
        lemma_last_greatest(x, (k - 1) as nat);
    }
}

/// The first filter leaves the `k` greatest scores as they are, and what it drops is less than all
/// of them.
pub proof fn law_top_k_keeps_the_best(x: Seq<u32>, k: nat, low: u32)
    requires
        0 < k < x.len() <= usize::MAX,
        all_numbers(x),
    ensures
        forall|j: int|
            0 <= j < k ==> keep_top_k(x, k, low)[#[trigger] by_size(x)[j] as int] == x[by_size(x)[j] as int],
        forall|i: int, j: int|
            0 <= i < x.len() && 0 <= j < k && keep_top_k(x, k, low)[i] != x[i] ==> single_greater(
                x[#[trigger] by_size(x)[j] as int],
                #[trigger] x[i],
            ),
{
    let places = by_size(x);
    let keys = descending(x);
    let threshold = x[places[k - 1] as int];
    lemma_order_exists(keys);
    assert(0 <= places[k - 1] < x.len());
    assert forall|j: int| 0 <= j < k implies single_at_least(x[#[trigger] places[j] as int], threshold) by {
        assert(0 <= places[j] < x.len());
        if j < k - 1 {
            assert(comes_first(keys, places[j], places[k - 1]));
        }
    }
}

/// The second filter leaves the most probable token as it is, whatever the size of the nucleus.
pub proof fn law_nucleus_keeps_the_most_probable<N: Arithmetic<Num = u32>>(n: &N, x: Seq<u32>, p: u32, low: u32)
    requires
        0 < x.len() <= usize::MAX,
    ensures
        ({
            let best = by_size(softmaxed(n, x))[0];
            &&& best < x.len()
            &&& keep_nucleus(n, x, p, low)[best as int] == x[best as int]
        }),
{
    let probs = softmaxed(n, x);
    lemma_order_exists(descending(probs));
    let places = by_size(probs);
    assert(0 <= places[0] < x.len());
    lemma_reaching(n, ranked(probs), p, 0);
    let kept = nucleus(n, probs, p);
    assert(kept[0] == places[0]);
}

proof fn lemma_reaching<N: Arithmetic<Num = u32>>(n: &N, x: Seq<u32>, p: u32, from: nat)
    requires
        from <= x.len(),
    ensures
        from <= reaching(n, x, p, from) <= x.len(),
    decreases x.len() - from,
{
    if from < x.len() {
        lemma_reaching(n, x, p, from + 1);
    }
}

} // verus!
