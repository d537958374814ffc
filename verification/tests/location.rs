use std::cmp::Ordering;
use stream_locate_converter::location::line_column::{OneBased, ZeroBased};
use stream_locate_converter::location::Offset;

#[test]
fn offset_holds_its_count() {
    assert_eq!(Offset::new(0).raw(), 0);
    assert_eq!(Offset::new(42).raw(), 42);
    assert_eq!(Offset::new(usize::MAX).raw(), usize::MAX);
    assert_eq!(Offset::from(7), Offset::new(7));
    let made: Offset = 9.into();
    assert_eq!(made.raw(), 9);
}

#[test]
fn offsets_are_ordered_as_their_counts() {
    assert!(Offset::new(3) < Offset::new(4));
    assert!(Offset::new(4) > Offset::new(3));
    assert!(Offset::new(4) <= Offset::new(4));
    assert_eq!(Offset::new(4).partial_cmp(&Offset::new(4)), Some(Ordering::Equal));
    assert_eq!(Offset::new(1).partial_cmp(&Offset::new(2)), Some(Ordering::Less));
    assert_eq!(Offset::new(2).partial_cmp(&Offset::new(1)), Some(Ordering::Greater));
    assert_eq!(Offset::new(1).cmp(&Offset::new(2)), Ordering::Less);
    assert_eq!(Offset::new(5).max(Offset::new(2)), Offset::new(5));
}

#[test]
fn zero_based_holds_line_and_column() {
    let at = ZeroBased::new(3, 8);
    assert_eq!(at.line, 3);
    assert_eq!(at.column, 8);
    assert_eq!(at.raw(), (3, 8));
    assert_eq!(ZeroBased::from((3, 8)), at);
    assert_eq!(ZeroBased::new(0, 0).raw(), (0, 0));
}

#[test]
fn positions_are_ordered_by_line_then_column() {
    assert!(ZeroBased::new(1, 9) < ZeroBased::new(2, 0));
    assert!(ZeroBased::new(2, 0) < ZeroBased::new(2, 1));
    assert!(ZeroBased::new(2, 1) > ZeroBased::new(1, 100));
    assert_eq!(ZeroBased::new(2, 1).partial_cmp(&ZeroBased::new(2, 1)), Some(Ordering::Equal));
    assert_eq!(ZeroBased::new(2, 1).cmp(&ZeroBased::new(2, 1)), Ordering::Equal);
    assert_eq!(ZeroBased::new(0, 5).cmp(&ZeroBased::new(1, 0)), Ordering::Less);
    let a = OneBased::new(1, 9).unwrap();
    let b = OneBased::new(2, 1).unwrap();
    let c = OneBased::new(2, 2).unwrap();
    assert!(a < b && b < c && a < c);
    assert_eq!(c.partial_cmp(&b), Some(Ordering::Greater));
    assert_eq!(b.cmp(&c), Ordering::Less);
    assert_eq!(b.partial_cmp(&b), Some(Ordering::Equal));
}

#[test]
fn one_based_holds_no_zero() {
    assert_eq!(OneBased::new(0, 0), None);
    assert_eq!(OneBased::new(0, 5), None);
    assert_eq!(OneBased::new(5, 0), None);
    let at = OneBased::new(1, 1).unwrap();
    assert_eq!(at.raw(), (1, 1));
    assert_eq!(OneBased::new(7, 3).unwrap().raw(), (7, 3));
    assert_eq!(OneBased::new(usize::MAX, usize::MAX).unwrap().raw(), (usize::MAX, usize::MAX));
}

#[test]
fn one_based_is_zero_based_plus_one() {
    assert_eq!(ZeroBased::new(0, 0).one_based().raw(), (1, 1));
    assert_eq!(ZeroBased::new(2, 5).one_based().raw(), (3, 6));
    assert_eq!(
        ZeroBased::new(usize::MAX - 1, usize::MAX - 1).one_based().raw(),
        (usize::MAX, usize::MAX)
    );
    assert_eq!(OneBased::new(1, 1).unwrap().zero_based(), ZeroBased::new(0, 0));
    assert_eq!(OneBased::new(3, 6).unwrap().zero_based(), ZeroBased::new(2, 5));
}

#[test]
fn counting_from_one_and_back_changes_nothing() {
    for line in [0, 1, 2, 99] {
        for column in [0, 1, 7, 1000] {
            let zero = ZeroBased::new(line, column);
            assert_eq!(zero.one_based().zero_based(), zero);
            let one = OneBased::new(line + 1, column + 1).unwrap();
            assert_eq!(one.zero_based().one_based(), one);
            assert_eq!(zero.one_based(), one);
        }
    }
}
