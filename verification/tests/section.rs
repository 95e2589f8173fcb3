use crystal_sphinx::common::utility::vec_sectioned::section::Section;
use crystal_sphinx::common::utility::vec_sectioned::{Operation, OperationSize, TargetPosition};

#[test]
fn default() {
    assert_eq!(Section::default(), Section::from_range(0..0));
}

#[test]
fn apply_shift_positive() {
    let mut section = Section::from_range(3..5);
    section.apply(Operation::Shift(OperationSize::Increment));
    assert_eq!(section, Section::from_range(4..6));
}

#[test]
fn apply_shift_negative() {
    let mut section = Section::from_range(3..5);
    section.apply(Operation::Shift(OperationSize::Decrement));
    assert_eq!(section, Section::from_range(2..4));
}

#[test]
fn apply_resize_increase() {
    let mut section = Section::from_range(3..5);
    section.apply(Operation::ChangeSize(OperationSize::Increment));
    assert_eq!(section, Section::from_range(3..6));
}

#[test]
fn apply_resize_decrease() {
    let mut section = Section::from_range(3..5);
    section.apply(Operation::ChangeSize(OperationSize::Decrement));
    assert_eq!(section, Section::from_range(3..4));
}

#[test]
fn section_accessors() {
    let section = Section::new(3, 4);
    assert_eq!(section.start(), 3);
    assert_eq!(section.end(), 7);
    assert_eq!(section.count(), 4);
    assert_eq!(section.last(), 6);
    assert_eq!(section.is_empty(), false);
    assert_eq!(section.inner(), 3..7);
    assert_eq!(section.index_at_position(TargetPosition::First), 3);
    assert_eq!(section.index_at_position(TargetPosition::Last), 6);
    assert_eq!(Section::new(5, 0).is_empty(), true);
}

#[test]
fn operation_size_delta() {
    assert_eq!(OperationSize::Increment.delta(), 1);
    assert_eq!(OperationSize::Decrement.delta(), -1);
}
