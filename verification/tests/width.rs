use stylish_stringlike::text::width_sliceable::scan_width_bounds;
use stylish_stringlike::text::{Bound, Bounds, Width};

#[test]
fn add_bounded() {
    let actual = Width::Bounded(4) + Width::Bounded(6);
    let expected = Width::Bounded(10);
    assert_eq!(expected, actual);
}

#[test]
fn add_bound_unbound() {
    let actual = Width::Bounded(4) + Width::Unbounded;
    let expected = Width::Unbounded;
    assert_eq!(expected, actual);
}

#[test]
fn add_unbound_bound() {
    let actual = Width::Unbounded + Width::Bounded(4);
    let expected = Width::Unbounded;
    assert_eq!(expected, actual);
}

#[test]
fn add_bound_bound() {
    let actual = Width::Unbounded + Width::Unbounded;
    let expected = Width::Unbounded;
    assert_eq!(expected, actual);
}

#[test]
fn sum() {
    let v = vec![Width::Bounded(5), Width::Bounded(6), Width::Bounded(7)];
    let actual: Width = Width::sum(&v);
    let expected = Width::Bounded(18);
    assert_eq!(expected, actual);
}

#[test]
fn add_assign() {
    let mut actual = Width::Bounded(1);
    actual.add_assign(Width::Bounded(4));
    let expected = Width::Bounded(5);
    assert_eq!(expected, actual);
}

#[test]
fn sum_of_nothing_is_zero() {
    let v: Vec<Width> = vec![];
    assert_eq!(Width::sum(&v), Width::Bounded(0));
}

#[test]
fn sum_with_unbounded_is_unbounded() {
    let v = vec![Width::Bounded(5), Width::Unbounded, Width::Bounded(7)];
    assert_eq!(Width::sum(&v), Width::Unbounded);
}

#[test]
fn add_is_commutative_on_examples() {
    assert_eq!(
        Width::Bounded(3) + Width::Bounded(9),
        Width::Bounded(9) + Width::Bounded(3)
    );
    assert_eq!(Width::Bounded(0) + Width::Bounded(9), Width::Bounded(9));
}

#[test]
fn width_scan_keeps_whole_graphemes_in_the_range() {
    let gs = vec!["a", "日", "b"];
    let widths = vec![1, 2, 1];
    assert_eq!(
        scan_width_bounds(&gs, &widths, Bounds::up_to(2)),
        Some(Bounds::new(Bound::Included(0), Bound::Excluded(1)))
    );
    assert_eq!(
        scan_width_bounds(&gs, &widths, Bounds::starting_at(1)),
        Some(Bounds::new(Bound::Included(1), Bound::Unbounded))
    );
    assert_eq!(
        scan_width_bounds(&gs, &widths, Bounds::between(2, 3)),
        None
    );
    assert_eq!(
        scan_width_bounds(&gs, &widths, Bounds::between(1, 3)),
        Some(Bounds::new(Bound::Included(1), Bound::Excluded(4)))
    );
}
