use std::cell::Cell;

use rust_raytracingv2::radiance::{radiance, Interaction};

type Rgb = (f64, f64, f64);

const BLACK: Rgb = (0.0, 0.0, 0.0);
const SKY: Rgb = (0.5, 0.7, 1.0);

fn shade(e: Rgb, a: Rgb, i: Rgb) -> Rgb {
    (e.0 + a.0 * i.0, e.1 + a.1 * i.1, e.2 + a.2 * i.2)
}

#[test]
fn zero_depth_is_black() {
    let traced = Cell::new(0);
    let trace = |_: u32| -> Interaction<u32, Rgb> {
        traced.set(traced.get() + 1);
        Some(((1.0, 1.0, 1.0), None))
    };
    assert_eq!(radiance(7u32, SKY, BLACK, 0, &trace, &shade), BLACK);
    assert_eq!(radiance(7u32, SKY, BLACK, -3, &trace, &shade), BLACK);
    assert_eq!(traced.get(), 0);
}

#[test]
fn miss_returns_the_background() {
    let trace = |_: u32| -> Interaction<u32, Rgb> { None };
    assert_eq!(radiance(1u32, SKY, BLACK, 50, &trace, &shade), SKY);
    assert_eq!(radiance(1u32, SKY, BLACK, 1, &trace, &shade), SKY);
}

#[test]
fn light_without_scatter_returns_its_emission() {
    let trace = |_: u32| -> Interaction<u32, Rgb> { Some(((4.0, 4.0, 4.0), None)) };
    assert_eq!(radiance(0u32, SKY, BLACK, 10, &trace, &shade), (4.0, 4.0, 4.0));
}

#[test]
fn bounce_adds_emission_to_attenuated_light() {
    // Ray 0 hits a diffuse surface scattering into ray 1, which escapes.
    let trace = |r: u32| -> Interaction<u32, Rgb> {
        if r == 0 { Some(((0.1, 0.0, 0.0), Some((1, (0.5, 0.5, 0.25))))) } else { None }
    };
    let c = radiance(0u32, SKY, BLACK, 5, &trace, &shade);
    assert_eq!(c, (0.1 + 0.5 * 0.5, 0.5 * 0.7, 0.25 * 1.0));
}

#[test]
fn depth_cutoff_truncates_the_path() {
    // Every ray scatters into the next with attenuation one half and emits one.
    let trace = |r: u32| -> Interaction<u32, Rgb> { Some(((1.0, 1.0, 1.0), Some((r + 1, (0.5, 0.5, 0.5))))) };
    let c = radiance(0u32, SKY, BLACK, 3, &trace, &shade);
    assert_eq!(c, (1.75, 1.75, 1.75));
    let c = radiance(0u32, SKY, BLACK, 1, &trace, &shade);
    assert_eq!(c, (1.0, 1.0, 1.0));
}
