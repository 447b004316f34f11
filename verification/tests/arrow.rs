use arrowpipe::nop;
use arrowpipe::Arrow;
use arrowpipe::OutOfRange;

/// The arrow type used throughout: every essence is a plain `i32` function
/// pointer, so arrows built from different functions share one type.
type IntArrow = Arrow<i32, i32, fn(i32) -> i32, fn(i32) -> i32>;

fn add_one(x: i32) -> i32 {
    x + 1
}

fn double(x: i32) -> i32 {
    x * 2
}

fn subtract_one(x: i32) -> i32 {
    x - 1
}

#[test]
fn test_new() {
    let arrow: IntArrow = Arrow::new(add_one);
    assert_eq!(arrow.apply(1), 2);
}

#[test]
fn test_symbiotize() {
    let mut arrow: IntArrow = Arrow::new(add_one);
    arrow.symbiotize(Arrow::new(double));
    assert_eq!(arrow.shoot(1), 4);
}

#[test]
fn test_shoot() {
    let mut arrow: IntArrow = Arrow::new(add_one);
    arrow.symbiotize(Arrow::new(double));
    arrow.symbiotize(Arrow::new(subtract_one));
    assert_eq!(arrow.shoot(1), 3);
}

#[test]
fn test_shoot_reverse() {
    let mut arrow: IntArrow = Arrow::new(add_one); // First 1 -> 2
    arrow.symbiotize(Arrow::new(double)); // Third 1 -> 2
    arrow.symbiotize(Arrow::new(subtract_one)); // Second 2 -> 1
    assert_eq!(arrow.shoot_reverse(1), 2);
}

#[test]
fn test_clear() {
    let mut arrow: IntArrow = Arrow::new(add_one);
    arrow.symbiotize(Arrow::new(double));
    arrow.clear();
    assert_eq!(arrow.shoot(1), 2);
}

#[test]
fn test_remove() {
    let mut arrow: IntArrow = Arrow::new(add_one); // First, 1 -> 2
    let idx = arrow.symbiotize(Arrow::new(double));
    arrow.symbiotize(Arrow::new(subtract_one)); // Second, 2 -> 1
    arrow.remove(idx);
    assert_eq!(arrow.shoot(1), 1);
}

#[test]
fn test_nop() {
    let arrow: Arrow<(), (), _, fn(()) -> ()> = nop();
    arrow.shoot(())
}

#[test]
fn weird_structs() {
    struct NotCopy {
        x: Vec<i8>,
        s: String,
    }

    let mut arrow = Arrow::new(|i: NotCopy| i.x.len() + i.s.len());
    arrow.symbiotize(Arrow::new(|i: usize| i * 2));

    let nc = NotCopy {
        x: vec![1, 2, 3],
        s: "123".to_string(),
    };

    assert_eq!(arrow.shoot(nc), 12);
}

#[test]
fn empty_arrow_shoots_like_apply() {
    let arrow: IntArrow = Arrow::new(add_one);
    assert_eq!(arrow.apply(5), 6);
    assert_eq!(arrow.shoot(5), 6);
    assert_eq!(arrow.shoot_reverse(5), 6);
}

#[test]
fn attachment_order_matters() {
    let mut first_doubles: IntArrow = Arrow::new(add_one);
    first_doubles.symbiotize(Arrow::new(double));
    first_doubles.symbiotize(Arrow::new(subtract_one));
    // essence 1 -> 2, double -> 4, subtract -> 3
    assert_eq!(first_doubles.shoot(1), 3);

    let mut first_subtracts: IntArrow = Arrow::new(add_one);
    first_subtracts.symbiotize(Arrow::new(subtract_one));
    first_subtracts.symbiotize(Arrow::new(double));
    // essence 1 -> 2, subtract -> 1, double -> 2
    assert_eq!(first_subtracts.shoot(1), 2);
}

#[test]
fn forward_and_backward_traversal() {
    let mut arrow: IntArrow = Arrow::new(add_one);
    arrow.symbiotize(Arrow::new(double));
    arrow.symbiotize(Arrow::new(double));
    arrow.symbiotize(Arrow::new(subtract_one));
    // forward: 1 -> 2 -> 4 -> 8 -> 7
    assert_eq!(arrow.shoot(1), 7);
    // backward: 1 -> 2 -> 1 -> 2 -> 4
    assert_eq!(arrow.shoot_reverse(1), 4);
}

#[test]
fn clear_resets_to_apply() {
    let mut arrow: IntArrow = Arrow::new(add_one);
    arrow.symbiotize(Arrow::new(double));
    arrow.symbiotize(Arrow::new(subtract_one));
    arrow.symbiotize(Arrow::new(double));
    arrow.clear();
    assert_eq!(arrow.shoot(9), arrow.apply(9));
    assert_eq!(arrow.shoot(9), 10);
}

#[test]
fn remove_shifts_indices() {
    let mut arrow: IntArrow = Arrow::new(add_one);
    arrow.symbiotize(Arrow::new(double)); // index 0
    arrow.symbiotize(Arrow::new(subtract_one)); // index 1
    arrow.symbiotize(Arrow::new(double)); // index 2
    arrow.remove(0);
    // the former index 1 child has shifted to index 0
    assert_eq!(arrow.shoot(1), 2); // 1 -> 2 -> 1 -> 2
    arrow.remove(0);
    // only the former index 2 child remains
    assert_eq!(arrow.shoot(1), 4); // 1 -> 2 -> 4
}

#[test]
fn nested_arrows_run_their_own_symbiotes() {
    let mut inner: IntArrow = Arrow::new(add_one);
    inner.symbiotize(Arrow::new(double));
    let mut outer: IntArrow = Arrow::new(add_one);
    outer.symbiotize(inner);
    // outer essence 1 -> 2; inner essence 2 -> 3; inner symbiote 3 -> 6
    assert_eq!(outer.shoot(1), 6);
}

#[test]
fn try_remove_out_of_range_reports_and_keeps_list() {
    let mut arrow: IntArrow = Arrow::new(add_one);
    arrow.symbiotize(Arrow::new(double));
    assert_eq!(arrow.try_remove(5), Err(OutOfRange));
    // the attached list is untouched
    assert_eq!(arrow.shoot(1), 4);
}

#[test]
fn try_remove_in_range_shifts_like_remove() {
    let mut arrow: IntArrow = Arrow::new(add_one);
    arrow.symbiotize(Arrow::new(double));
    arrow.symbiotize(Arrow::new(subtract_one));
    assert_eq!(arrow.try_remove(0), Ok(()));
    assert_eq!(arrow.shoot(1), 1); // 1 -> 2 -> 1
}

#[test]
fn nop_passes_values_through() {
    let arrow: Arrow<i32, i32, _, fn(i32) -> i32> = nop();
    assert_eq!(arrow.shoot(41), 41);
    assert_eq!(arrow.apply(41), 41);
}
