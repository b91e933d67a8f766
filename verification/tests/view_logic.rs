use sim3dview::camera::{CameraPreset, ViewMode};
use sim3dview::draw_tool::{can_finish, hint_text, ClickResult, Draft, ToolKind};
use sim3dview::drawing::{validate_spaces, Corner, Space};
use sim3dview::drawing_editor::{hex_rgb, hex_string};
use sim3dview::los::{azimuth_count, NUM_AZIMUTHS};

#[test]
fn azimuth_counts_follow_the_step() {
    assert_eq!(azimuth_count(1), NUM_AZIMUTHS);
    assert_eq!(azimuth_count(4), 1600);
    assert_eq!(azimuth_count(2), 3200);
    assert_eq!(azimuth_count(6400), 1);
}

#[test]
fn tools_are_listed_with_their_names() {
    assert_eq!(ToolKind::ALL.len(), 9);
    assert_eq!(ToolKind::ALL[0], ToolKind::Circle);
    assert_eq!(ToolKind::Circle.label(), "円");
    assert_eq!(ToolKind::Cone.label(), "円錐");
    assert_eq!(ToolKind::Sector.fixed_points(), Some(3));
    assert_eq!(ToolKind::Rect.fixed_points(), Some(2));
    assert_eq!(ToolKind::Polyline.fixed_points(), None);
    assert_eq!(ToolKind::Polygon.min_points(), 3);
    assert_eq!(ToolKind::Polyline.min_points(), 2);
}

#[test]
fn hints_follow_the_placed_points() {
    assert_eq!(hint_text(None, 3), "");
    assert_eq!(hint_text(Some(ToolKind::Circle), 0), "円: 円の中心をクリック");
    assert_eq!(
        hint_text(Some(ToolKind::Sector), 1),
        "扇形: 扇の開始側の縁をクリック(半径と開始方位)"
    );
    assert_eq!(
        ToolKind::Sector.hint(2),
        "扇の終了側の縁をクリック(開始から時計回り)"
    );
}

#[test]
fn only_polygons_and_polylines_are_finished_by_hand() {
    assert!(!can_finish(None, 10));
    assert!(!can_finish(Some(ToolKind::Circle), 2));
    assert!(!can_finish(Some(ToolKind::Polygon), 2));
    assert!(can_finish(Some(ToolKind::Polygon), 3));
    assert!(can_finish(Some(ToolKind::Polyline), 2));
    assert!(!can_finish(Some(ToolKind::Polyline), 1));
}

#[test]
fn a_shape_stays_in_one_kind_of_coordinates() {
    assert_eq!(validate_spaces(&[], false), Err("位置が指定されていない"));
    assert_eq!(
        validate_spaces(&[Space::World, Space::View], false),
        Err("位置の種類(World/Screen/View)が混ざっている")
    );
    assert_eq!(
        validate_spaces(&[Space::Screen], true),
        Err("3D図形は画面座標(Screen)に置けない(ViewかWorldを使う)")
    );
    assert_eq!(validate_spaces(&[Space::Screen, Space::Screen], false), Ok(Space::Screen));
    assert_eq!(validate_spaces(&[Space::View], true), Ok(Space::View));
    assert_ne!(Corner::TopLeft, Corner::Center);
}

#[test]
fn colour_text_round_trips() {
    assert_eq!(hex_string(255, 153, 26), "#ff991a");
    assert_eq!(hex_rgb("#ff991a"), Some((255, 153, 26)));
    assert_eq!(hex_rgb("#FF991A"), Some((255, 153, 26)));
    assert_eq!(hex_rgb("#+f0a0b"), Some((15, 10, 11)));
    assert_eq!(hex_rgb("ff991a"), None);
    assert_eq!(hex_rgb("#ff991"), None);
    assert_eq!(hex_rgb("#ff991g"), None);
    assert_eq!(hex_rgb("#-10000"), None);
    assert_eq!(hex_rgb("#ああ"), None);
    for (r, g, b) in [(0, 0, 0), (1, 128, 254), (15, 16, 17)] {
        assert_eq!(hex_rgb(&hex_string(r, g, b)), Some((r, g, b)));
    }
}

#[test]
fn camera_choices() {
    assert_eq!(CameraPreset::Overview, CameraPreset::Overview);
    assert_ne!(ViewMode::ThreeD, ViewMode::TwoD);
}

#[test]
fn draft_collects_points_until_a_shape_is_complete() {
    let mut d: Draft<(f64, f64)> = Draft::new();
    assert_eq!(d.click((0.0, 0.0), false), ClickResult::Ignored);
    d.start(ToolKind::Circle);
    assert!(d.is_active());
    assert!(!d.wants_hover());
    assert_eq!(d.hint(), "円: 円の中心をクリック");
    assert_eq!(d.click((1.0, 1.0), false), ClickResult::Added);
    assert!(d.wants_hover());
    assert_eq!(d.click((1.0, 1.0), true), ClickResult::Ignored);
    assert_eq!(d.points().len(), 1);
    assert_eq!(d.click((1.0, 2.0), false), ClickResult::Complete);
    d.rejected();
    assert_eq!(d.points(), &[(1.0, 1.0)]);
    assert_eq!(d.click((1.0, 3.0), false), ClickResult::Complete);
    d.made();
    assert!(d.points().is_empty());
    assert_eq!(d.tool(), Some(ToolKind::Circle));
    // Choosing the same tool again drops it.
    d.start(ToolKind::Circle);
    assert!(!d.is_active());
}

#[test]
fn polygons_are_finished_by_hand_and_undone_point_by_point() {
    let mut d: Draft<u32> = Draft::new();
    d.start(ToolKind::Polygon);
    for p in 0..2 {
        assert_eq!(d.click(p, false), ClickResult::Added);
    }
    assert!(!d.can_finish());
    assert_eq!(d.click(2, false), ClickResult::Added);
    assert!(d.can_finish());
    d.undo();
    assert_eq!(d.points(), &[0, 1]);
    d.undo();
    d.undo();
    assert!(d.is_active());
    d.undo();
    assert!(!d.is_active());
    d.start(ToolKind::Sector);
    d.click(1, false);
    d.cancel();
    assert_eq!(d.tool(), None);
    assert!(d.points().is_empty());
}
