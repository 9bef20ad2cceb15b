use minkowski_kv::spacetime::{CausalOrder, Separation, SpacetimeCoord};

const DEFAULT_C: f64 = 299_792_458.0;

fn coord(t: u128, x: f64, y: f64, z: f64) -> SpacetimeCoord {
    SpacetimeCoord { t, x_bits: x.to_bits(), y_bits: y.to_bits(), z_bits: z.to_bits() }
}

fn interval_sq(a: &SpacetimeCoord, b: &SpacetimeCoord, c: f64) -> f64 {
    let delta_t_s = if b.t >= a.t { (b.t - a.t) as f64 * 1e-9 } else { -((a.t - b.t) as f64) * 1e-9 };
    let dx = f64::from_bits(b.x_bits) - f64::from_bits(a.x_bits);
    let dy = f64::from_bits(b.y_bits) - f64::from_bits(a.y_bits);
    let dz = f64::from_bits(b.z_bits) - f64::from_bits(a.z_bits);
    let ct = c * delta_t_s;
    ct * ct - (dx * dx + dy * dy + dz * dz)
}

fn separation(a: &SpacetimeCoord, b: &SpacetimeCoord) -> Separation {
    let s_sq = interval_sq(a, b, DEFAULT_C);
    if s_sq < 0.0 {
        Separation::Spacelike
    } else if s_sq > 0.0 {
        Separation::Timelike
    } else {
        Separation::Lightlike
    }
}

#[test]
fn timelike_ordering() {
    let a = coord(0, 0.0, 0.0, 0.0);
    let b = coord(10, 0.0, 0.0, 0.0);

    assert!(
        a.partial_compare(&b, separation(&a, &b)) == CausalOrder::Less,
        "Timelike future event should order as less"
    );
    assert_eq!(a.partial_compare(&b, separation(&a, &b)), CausalOrder::Less);
    assert_eq!(b.partial_compare(&a, separation(&b, &a)), CausalOrder::Greater);
}

#[test]
fn spacelike_concurrent() {
    let earth = coord(0, 0.0, 0.0, 0.0);
    let mars = coord(1_000_000_000, 5.4e10, 0.0, 0.0);

    assert_eq!(earth.partial_compare(&mars, separation(&earth, &mars)), CausalOrder::Incomparable);
    assert_eq!(mars.partial_compare(&earth, separation(&mars, &earth)), CausalOrder::Incomparable);
}

#[test]
fn spacelike_is_incomparable_whatever_the_times() {
    let a = coord(5, 0.0, 0.0, 0.0);
    let b = coord(5, 1.0, 0.0, 0.0);
    let c = coord(9, 1.0, 0.0, 0.0);
    assert_eq!(a.partial_compare(&b, Separation::Spacelike), CausalOrder::Incomparable);
    assert_eq!(a.partial_compare(&c, Separation::Spacelike), CausalOrder::Incomparable);
    assert_eq!(c.partial_compare(&a, Separation::Spacelike), CausalOrder::Incomparable);
}

#[test]
fn equal_only_when_times_are_equal() {
    let a = coord(7, 0.0, 0.0, 0.0);
    let b = coord(7, 0.0, 0.0, 0.0);
    let later = coord(8, 0.0, 0.0, 0.0);
    assert_eq!(a.partial_compare(&b, Separation::Lightlike), CausalOrder::Equal);
    assert_eq!(a.partial_compare(&later, Separation::Lightlike), CausalOrder::Less);
    assert_eq!(later.partial_compare(&a, Separation::Lightlike), CausalOrder::Greater);
    assert_eq!(a.partial_compare(&later, Separation::Timelike), CausalOrder::Less);
}

#[test]
fn times_beyond_the_signed_range_still_order() {
    let early = coord(1, 0.0, 0.0, 0.0);
    let late = coord(u128::MAX, 0.0, 0.0, 0.0);
    assert_eq!(early.partial_compare(&late, Separation::Timelike), CausalOrder::Less);
    assert_eq!(late.partial_compare(&early, Separation::Timelike), CausalOrder::Greater);
}

#[test]
fn origin_is_all_zero() {
    let o = SpacetimeCoord::origin();
    assert_eq!(o.t, 0);
    assert_eq!(f64::from_bits(o.x_bits), 0.0);
    assert_eq!(f64::from_bits(o.y_bits), 0.0);
    assert_eq!(f64::from_bits(o.z_bits), 0.0);
}
