use sim3dview::draw_tool::{ShapeList, ToolKind, UserShape};

fn names(list: &ShapeList) -> Vec<(u64, String)> {
    list.shapes().iter().map(|u: &UserShape| (u.id, u.name.clone())).collect()
}

#[test]
fn new_list_is_empty() {
    let list = ShapeList::new();
    assert!(list.shapes().is_empty());
    assert_eq!(list.selected(), None);
    assert_eq!(list.serial(), 0);
}

#[test]
fn commit_numbers_default_names_and_selects() {
    let mut list = ShapeList::new();
    list.commit(ToolKind::Circle, 7);
    list.commit(ToolKind::Polyline, 9);
    assert_eq!(
        names(&list),
        vec![(7, "円 1".to_string()), (9, "折れ線 2".to_string())]
    );
    assert_eq!(list.selected(), Some(9));
    assert_eq!(list.serial(), 2);
}

#[test]
fn restored_shapes_raise_the_counter() {
    let mut list = ShapeList::new();
    list.add_user_shape(1, "a".to_string());
    list.add_user_shape(2, "b".to_string());
    list.add_user_shape(3, "c".to_string());
    assert_eq!(list.serial(), 3);
    assert_eq!(list.selected(), None);
    list.commit(ToolKind::Rect, 4);
    assert_eq!(list.shapes()[3].name, "矩形 4");
    // Removing shapes does not lower the counter.
    list.remove(1);
    list.commit(ToolKind::Cone, 5);
    assert_eq!(list.shapes()[3].name, "円錐 5");
}

#[test]
fn duplicate_name_of_listed_shape() {
    let mut list = ShapeList::new();
    list.add_user_shape(1, "山".to_string());
    assert_eq!(list.duplicate_name(1), Some("山 のコピー".to_string()));
    assert_eq!(list.duplicate_name(2), None);
}

#[test]
fn rename_changes_only_the_first_entry_of_the_id() {
    let mut list = ShapeList::new();
    list.add_user_shape(1, "a".to_string());
    list.add_user_shape(2, "b".to_string());
    list.add_user_shape(2, "c".to_string());
    list.rename(2, "x".to_string());
    assert_eq!(
        names(&list),
        vec![(1, "a".to_string()), (2, "x".to_string()), (2, "c".to_string())]
    );
    list.rename(5, "y".to_string());
    assert_eq!(names(&list)[0].1, "a");
}

#[test]
fn remove_takes_the_shape_off_and_clears_its_selection() {
    let mut list = ShapeList::new();
    list.commit(ToolKind::Sphere, 1);
    list.commit(ToolKind::Cuboid, 2);
    list.select(Some(1));
    assert!(!list.remove(2));
    assert_eq!(list.selected(), Some(1));
    assert_eq!(names(&list), vec![(1, "球 1".to_string())]);
    assert!(list.remove(1));
    assert_eq!(list.selected(), None);
    assert!(list.shapes().is_empty());
    assert!(!list.remove(1));
}

#[test]
fn remove_all_hands_back_the_ids_in_order() {
    let mut list = ShapeList::new();
    list.commit(ToolKind::Sector, 5);
    list.commit(ToolKind::Cylinder, 3);
    assert_eq!(list.remove_all(), vec![5, 3]);
    assert!(list.shapes().is_empty());
    assert_eq!(list.selected(), None);
    assert_eq!(list.serial(), 2);
}
