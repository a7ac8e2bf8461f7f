use wltile::draw::{plan_draw, region_fits, DrawPlan, SurfaceSlot};
use wltile::error::ClientError;

fn slots() -> Vec<SurfaceSlot> {
    vec![
        SurfaceSlot { output: Some(5), offset: 0, len: 100 },
        SurfaceSlot { output: None, offset: 100, len: 100 },
        SurfaceSlot { output: Some(3), offset: 200, len: 100 },
    ]
}

#[test]
fn a_picture_larger_than_the_pool_is_refused() {
    match plan_draw(1001, 1000, 300, &slots(), Some(3)) {
        Err(ClientError::Display { msg }) => assert_eq!(msg, "Pixel buffer is bigger than the display buffer"),
        other => panic!("unexpected {:?}", other),
    }
}

#[test]
fn an_output_already_shown_reuses_its_surface() {
    assert_eq!(plan_draw(100, 1000, 300, &slots(), Some(3)).unwrap(), DrawPlan::Reuse { surface: 2, offset: 200 });
}

#[test]
fn a_new_output_gets_a_surface_past_the_others() {
    assert_eq!(
        plan_draw(100, 1000, 300, &slots(), Some(9)).unwrap(),
        DrawPlan::Create { offset: 300, next_offset: 400 }
    );
    // A surface without an output is never reused.
    assert_eq!(plan_draw(100, 1000, 300, &slots(), None).unwrap(), DrawPlan::Create { offset: 300, next_offset: 400 });
}

#[test]
fn a_region_must_lie_within_the_pool() {
    assert!(region_fits(900, 100, 1000));
    assert!(!region_fits(901, 100, 1000));
    assert!(!region_fits(usize::MAX, 2, 1000));
}
