//! What the arithmetic of diffusion training is over real numbers.

use vstd::prelude::*;

use crate::averages::{faithful, lemma_scaled};
use crate::diffusion::training::{base_rate, epoch_rate, least_rate, reconstructed, WARMUP_EPOCHS};
use crate::numbers::{one, zero, Arithmetic, Term};
use crate::reals::{
    exact, lemma_cancel, lemma_commute, lemma_group, lemma_half, lemma_root_positive, lemma_times_zero, lemma_zero, rpow,
    Reals,
};
use crate::tensor::{combined, Pairing, TensorMath, TensorView};

verus! {

/// A reconstructed image, mixed with the noise again in the shares of its timestep, is the noisy image.
pub proof fn law_reconstruction_undoes_noise<N: Arithmetic, E: Arithmetic, F: Fn(N::Num) -> E::Num>(
    math: &TensorMath<N, E, F>,
    r: Reals<N::Num>,
    q: Reals<E::Num>,
    noisy: TensorView<E::Num>,
    noise: TensorView<E::Num>,
    alpha_bar: N::Num,
    i: int,
) -> (shares: (real, real))
    requires
        faithful(math, r, q),
        r.holds(alpha_bar),
        (0 as real) < r.at(alpha_bar) <= (1 as real),
        0 <= i < noisy.data.len(),
        noise.data.len() == noisy.data.len(),
        q.holds(noisy.data[i]),
        q.holds(noise.data[i]),
    ensures
        ({
            let image = reconstructed(math, noisy, noise, alpha_bar);
            &&& image.data.len() == noisy.data.len()
            &&& shares.0 > 0 as real
            &&& shares.0 * shares.0 == r.at(alpha_bar)
            &&& shares.1 >= 0 as real
            &&& shares.1 * shares.1 == (1 as real) - r.at(alpha_bar)
            &&& q.holds(image.data[i])
            &&& q.at(noisy.data[i]) == shares.0 * q.at(image.data[i]) + shares.1 * q.at(noise.data[i])
        }),
{
    let n = &math.wide;
    lemma_zero(n, r);
    let image_share = n.value(Term::Sqrt(alpha_bar));
    let rest = n.value(Term::Sub(one(n), alpha_bar));
    let noise_share = n.value(Term::Sqrt(rest));
    assert(r.holds(image_share) && r.holds(rest) && r.holds(noise_share));
    let s = r.at(image_share);
    let w = r.at(noise_share);
    lemma_root_positive(s, r.at(alpha_bar));
    let inverse = n.value(Term::Div(one(n), image_share));
    assert(r.holds(inverse) && r.at(inverse) * s == 1 as real);
    let scaled_noise = math.scaled(noise, noise_share, zero(n));
    lemma_scaled(math, r, q, noise, noise_share, zero(n), i);
    let left = combined(&math.narrow, Pairing::Difference, noisy, scaled_noise);
    assert(left.data[i] == math.narrow.value(Term::Sub(noisy.data[i], scaled_noise.data[i])));
    assert(q.holds(left.data[i]));
    lemma_scaled(math, r, q, left, inverse, zero(n), i);
    let d = q.at(left.data[i]);
    let v = r.at(inverse);
    lemma_group(s, d, v);
    lemma_group(d, v, s);
    lemma_commute(d * v, s);
    lemma_times_zero(d);
    lemma_commute(q.at(noise.data[i]), w);
    (s, w)
}

/// The learning rate of diffusion training rises with the epochs to the highest rate, from which it
/// begins to fall, and is the lowest at the end. On the way down it is as far above the lowest as the
/// cosine is above minus one, of an angle that grows with the epochs to half a turn.
pub proof fn law_epoch_rate_rises_and_falls<N: Arithmetic>(
    n: &N,
    r: Reals<N::Num>,
    epoch: usize,
    num_epochs: usize,
) -> (angle: real)
    requires
        exact(n, r),
        num_epochs > WARMUP_EPOCHS,
    ensures
        ({
            let rate = epoch_rate(n, epoch, num_epochs);
            let top = r.at(base_rate(n));
            let bottom = r.at(least_rate(n));
            let warmup = WARMUP_EPOCHS as real;
            &&& r.holds(rate)
            &&& top * rpow(10 as real, 4) == 1 as real
            &&& bottom * rpow(10 as real, 6) == 1 as real
            &&& epoch < WARMUP_EPOCHS ==> r.at(rate) * warmup == top * (epoch as real)
            &&& epoch == WARMUP_EPOCHS ==> r.at(rate) == top
            &&& epoch == num_epochs ==> r.at(rate) == bottom
            &&& epoch >= WARMUP_EPOCHS ==> angle * ((num_epochs as real) - warmup) == r.half_turn * ((epoch as real) - warmup)
                && (2 as real) * (r.at(rate) - bottom) == (top - bottom) * ((1 as real) + r.cos(angle))
        }),
{
    lemma_zero(n, r);
    let rate = epoch_rate(n, epoch, num_epochs);
    let here = n.value(Term::Count(epoch));
    let count = n.value(Term::Count(WARMUP_EPOCHS));
    let warmup = WARMUP_EPOCHS as real;
    let high = base_rate(n);
    let low = least_rate(n);
    let top = r.at(high);
    assert(r.holds(high) && r.holds(low));
    assert(r.at(here) == epoch as real && r.at(count) == warmup);
    if epoch < WARMUP_EPOCHS {
        let part = n.value(Term::Div(here, count));
        assert(r.holds(part) && r.at(part) * warmup == epoch as real);
        lemma_group(top, r.at(part), warmup);
        0 as real
    } else {
        let gone = n.value(Term::Sub(here, count));
        let length = n.value(Term::Sub(n.value(Term::Count(num_epochs)), count));
        let down = (num_epochs as real) - warmup;
        assert(r.holds(length) && r.at(length) == down && down > 0 as real);
        assert(r.holds(gone) && r.at(gone) == (epoch as real) - warmup);
        let part = n.value(Term::Div(gone, length));
        let share = r.at(part);
        assert(r.holds(part) && share * down == r.at(gone));
        let turn = n.value(Term::Mul(n.value(Term::Pi), part));
        let angle = r.half_turn * share;
        assert(r.holds(turn) && r.at(turn) == angle);
        lemma_group(r.half_turn, share, down);
        let wave = n.value(Term::Cos(turn));
        let height = n.value(Term::Add(one(n), wave));
        assert(r.holds(wave) && r.holds(height) && r.at(height) == (1 as real) + r.cos(angle));
        let fifty = n.value(Term::Decimal(5, 1));
        let h = r.at(fifty);
        assert(rpow(10 as real, 1) == 10 as real) by {
            reveal_with_fuel(rpow, 3);
        }
        assert(h * (10 as real) == 5 as real);
        let gap = n.value(Term::Sub(high, low));
        let half = n.value(Term::Mul(fifty, gap));
        assert(r.holds(fifty) && r.holds(gap) && r.holds(half));
        let m = r.at(gap);
        let up = r.at(height);
        let above = n.value(Term::Mul(half, height));
        assert(r.holds(above) && r.at(above) == (h * m) * up);
        lemma_group(2 as real, h * m, up);
        lemma_group(2 as real, h, m);
        lemma_half(h);
        lemma_times_zero(m);
        assert((2 as real) * (r.at(rate) - r.at(low)) == m * up);
        lemma_commute(share, down);
        lemma_times_zero(down);
        lemma_times_zero(r.half_turn);
        if epoch == WARMUP_EPOCHS {
            lemma_cancel(down, share, 0 as real);
            lemma_commute(m, 2 as real);
        }
        if epoch == num_epochs {
            lemma_cancel(down, share, 1 as real);
        }
        angle
    }
}

} // verus!
