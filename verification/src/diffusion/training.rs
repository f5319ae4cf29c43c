//! What happens in which epoch of training, and the arithmetic around a step.

use vstd::prelude::*;

use crate::lr_scheduler::cosine_rate;
use crate::numbers::{one, zero, Arithmetic, Question, Term};
use crate::tensor::{combine, combined, contents, Pairing, Tensor, TensorMath, TensorView};
use crate::text::{concat, padded, padded_string};

verus! {

/// How many epochs the learning rate rises.
pub const WARMUP_EPOCHS: usize = 500;

/// Whether the loss is reported in an epoch.
pub open spec fn reported(epoch: nat) -> bool {
    epoch % 100 == 0 || epoch == 1
}

/// Whether the state is saved in an epoch.
pub open spec fn saved(epoch: nat) -> bool {
    epoch % 500 == 0
}

/// Whether the loss is reported in an epoch.
pub fn reports_at(epoch: usize) -> (r: bool)
    ensures
        r == reported(epoch as nat),
{
    epoch % 100 == 0 || epoch == 1
}

/// Whether the state is saved in an epoch.
pub fn saves_at(epoch: usize) -> (r: bool)
    ensures
        r == saved(epoch as nat),
{
    epoch % 500 == 0
}

/// The highest learning rate.
pub open spec fn base_rate<N: Arithmetic>(n: &N) -> N::Num {
    n.value(Term::Decimal(1, 4))
}

/// The lowest learning rate.
pub open spec fn least_rate<N: Arithmetic>(n: &N) -> N::Num {
    n.value(Term::Decimal(1, 6))
}

/// The learning rate of an epoch: it rises in a straight line, then falls along half a cosine wave.
pub open spec fn epoch_rate<N: Arithmetic>(n: &N, epoch: usize, num_epochs: usize) -> N::Num {
    let here = n.value(Term::Count(epoch));
    let warmup = n.value(Term::Count(WARMUP_EPOCHS));
    if epoch < WARMUP_EPOCHS {
        n.value(Term::Mul(base_rate(n), n.value(Term::Div(here, warmup))))
    } else {
        let progress = n.value(
            Term::Div(
                n.value(Term::Sub(here, warmup)),
                n.value(Term::Sub(n.value(Term::Count(num_epochs)), warmup)),
            ),
        );
        cosine_rate(n, base_rate(n), least_rate(n), progress)
    }
}

/// The learning rate of an epoch.
pub fn rate_at<N: Arithmetic>(n: &N, epoch: usize, num_epochs: usize) -> (r: N::Num)
    requires
        n.wf(),
    ensures
        r == epoch_rate(n, epoch, num_epochs),
{
    let base = n.eval(Term::Decimal(1, 4));
    let least = n.eval(Term::Decimal(1, 6));
    let here = n.eval(Term::Count(epoch));
    let warmup = n.eval(Term::Count(WARMUP_EPOCHS));
    if epoch < WARMUP_EPOCHS {
        n.eval(Term::Mul(base, n.eval(Term::Div(here, warmup))))
    } else {
        let passed = n.eval(Term::Sub(here, warmup));
        let length = n.eval(Term::Sub(n.eval(Term::Count(num_epochs)), warmup));
        let progress = n.eval(Term::Div(passed, length));
        let half = n.eval(Term::Mul(n.eval(Term::Decimal(5, 1)), n.eval(Term::Sub(base, least))));
        let wave = n.eval(Term::Cos(n.eval(Term::Mul(n.eval(Term::Pi), progress))));
        let height = n.eval(Term::Add(n.eval(Term::Decimal(1, 0)), wave));
        n.eval(Term::Add(least, n.eval(Term::Mul(half, height))))
    }
}

/// What gradients are multiplied by so that their norm does not exceed `max_norm`; nothing if it does
/// not anyway.
pub open spec fn clip_factor<E: Arithmetic>(e: &E, norm: E::Num, max_norm: E::Num) -> Option<E::Num> {
    if e.answer(Question::Less(max_norm, norm)) {
        Some(e.value(Term::Div(max_norm, e.value(Term::Add(norm, e.value(Term::Decimal(1, 6)))))))
    } else {
        None
    }
}

/// What gradients are multiplied by so that their norm does not exceed `max_norm`.
pub fn find_clip_factor<E: Arithmetic>(e: &E, norm: E::Num, max_norm: E::Num) -> (r: Option<E::Num>)
    requires
        e.wf(),
    ensures
        r == clip_factor(e, norm, max_norm),
{
    if e.ask(Question::Less(max_norm, norm)) {
        let tiny = e.eval(Term::Decimal(1, 6));
        Some(e.eval(Term::Div(max_norm, e.eval(Term::Add(norm, tiny)))))
    } else {
        None
    }
}

/// Multiplies all gradients by a factor.
pub fn scale_gradients<N: Arithmetic, E: Arithmetic, F: Fn(N::Num) -> E::Num>(
    math: &TensorMath<N, E, F>,
    grads: &Vec<Tensor<E::Num>>,
    factor: N::Num,
) -> (r: Vec<Tensor<E::Num>>)
    requires
        math.wf(),
    ensures
        contents(r@) == contents(grads@).map_values(
            |g: TensorView<E::Num>| math.scaled(g, factor, zero(&math.wide)),
        ),
{
    let ghost goal = contents(grads@).map_values(|g: TensorView<E::Num>| math.scaled(g, factor, zero(&math.wide)));
    let nothing = math.wide.eval(Term::Decimal(0, 0));
    let mut out: Vec<Tensor<E::Num>> = Vec::new();
    let mut i: usize = 0;
    while i < grads.len()
        invariant
            math.wf(),
            nothing == zero(&math.wide),
            goal == contents(grads@).map_values(|g: TensorView<E::Num>| math.scaled(g, factor, zero(&math.wide))),
            i <= grads@.len(),
            contents(out@) == goal.take(i as int),
        decreases grads@.len() - i,
    {
        let ghost before = contents(out@);
        assert(contents(grads@)[i as int] == grads@[i as int]@);
        let one_gradient = math.affine(&grads[i], factor, nothing);
        out.push(one_gradient);
        assert(contents(out@) =~= before.push(one_gradient@));
        i += 1;
        assert(contents(out@) =~= goal.take(i as int));
    }
    assert(contents(out@) =~= goal);
    out
}

/// The image behind a noisy one, given the noise in it and the share of the image that is left.
pub open spec fn reconstructed<N: Arithmetic, E: Arithmetic, F: Fn(N::Num) -> E::Num>(
    math: &TensorMath<N, E, F>,
    noisy: TensorView<E::Num>,
    noise: TensorView<E::Num>,
    alpha_bar: N::Num,
) -> TensorView<E::Num> {
    let n = &math.wide;
    let image_share = n.value(Term::Sqrt(alpha_bar));
    let noise_share = n.value(Term::Sqrt(n.value(Term::Sub(one(n), alpha_bar))));
    math.scaled(
        combined(&math.narrow, Pairing::Difference, noisy, math.scaled(noise, noise_share, zero(n))),
        n.value(Term::Div(one(n), image_share)),
        zero(n),
    )
}

/// Takes the noise out of a noisy image.
pub fn reconstruct<N: Arithmetic, E: Arithmetic, F: Fn(N::Num) -> E::Num>(
    math: &TensorMath<N, E, F>,
    noisy: &Tensor<E::Num>,
    noise: &Tensor<E::Num>,
    alpha_bar: N::Num,
) -> (r: Tensor<E::Num>)
    requires
        math.wf(),
        noisy@.data.len() == noise@.data.len(),
    ensures
        r@ == reconstructed(math, noisy@, noise@, alpha_bar),
{
    let n = &math.wide;
    let nothing = n.eval(Term::Decimal(0, 0));
    let unit = n.eval(Term::Decimal(1, 0));
    let image_share = n.eval(Term::Sqrt(alpha_bar));
    let noise_share = n.eval(Term::Sqrt(n.eval(Term::Sub(unit, alpha_bar))));
    let scaled_noise = math.affine(noise, noise_share, nothing);
    let rest = combine(&math.narrow, Pairing::Difference, noisy, &scaled_noise);
    math.affine(&rest, n.eval(Term::Div(unit, image_share)), nothing)
}

/// The timesteps at which reconstruction is looked at.
pub fn diagnostic_timesteps() -> (r: Vec<usize>)
    ensures
        r@ == seq![20usize, 50, 80],
{
    let mut out: Vec<usize> = Vec::new();
    out.push(20);
    out.push(50);
    out.push(80);
    assert(out@ =~= seq![20usize, 50, 80]);
    out
}

/// The file for a noisy image.
pub fn noisy_path(timestep: usize) -> (r: String)
    ensures
        r@ == "unet_recon/noisy_t"@ + padded(timestep as nat, 3) + ".png"@,
{
    let numbered = concat("unet_recon/noisy_t", padded_string(timestep, 3).as_str());
    concat(numbered.as_str(), ".png")
}

/// The file for a reconstructed image.
pub fn reconstruction_path(timestep: usize) -> (r: String)
    ensures
        r@ == "unet_recon/recon_t"@ + padded(timestep as nat, 3) + ".png"@,
{
    let numbered = concat("unet_recon/recon_t", padded_string(timestep, 3).as_str());
    concat(numbered.as_str(), ".png")
}

/// The file for one of the images on the way from noise to a drawing.
pub fn frame_path(output_dir: &str, frame: usize) -> (r: String)
    ensures
        r@ == output_dir@ + "/frame_"@ + padded(frame as nat, 3) + ".png"@,
{
    let start = concat(output_dir, "/frame_");
    let numbered = concat(start.as_str(), padded_string(frame, 3).as_str());
    concat(numbered.as_str(), ".png")
}

} // verus!
