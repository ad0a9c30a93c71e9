use widget_core::combobox::{ComboBox, ComboBoxError, ComboBoxItem};

fn two_items() -> ComboBox {
    ComboBox::new().add_item(1, "A".to_string()).add_item(2, "B".to_string())
}

#[test]
fn new_has_no_selection() {
    let combo_box = ComboBox::new();
    assert_eq!(combo_box.get_selected_key(), None);
    assert_eq!(combo_box.get_selected_label(), None);
}

#[test]
fn default_is_new() {
    let mut combo_box = ComboBox::default();
    assert_eq!(combo_box.get_selected_key(), None);
    assert_eq!(combo_box.get_selected_label(), None);
    assert_eq!(combo_box.set_selected_index(0), Err(ComboBoxError::KeyNotExist(0)));
}

#[test]
fn selecting_a_listed_key() {
    let mut combo_box = two_items();
    assert_eq!(combo_box.set_selected_index(2), Ok(()));
    assert_eq!(combo_box.get_selected_key(), Some(2));
    assert_eq!(combo_box.get_selected_label(), Some("B".to_string()));
}

#[test]
fn selecting_in_an_empty_combo_box_fails() {
    let mut combo_box = ComboBox::new();
    assert_eq!(combo_box.set_selected_index(5), Err(ComboBoxError::KeyNotExist(5)));
    assert_eq!(combo_box.get_selected_key(), None);
    assert_eq!(combo_box.get_selected_label(), None);
}

#[test]
fn first_of_two_equal_keys_wins() {
    let mut combo_box = ComboBox::new().add_item(1, "A".to_string()).add_item(1, "B".to_string());
    assert_eq!(combo_box.set_selected_index(1), Ok(()));
    assert_eq!(combo_box.get_selected_key(), Some(1));
    assert_eq!(combo_box.get_selected_label(), Some("A".to_string()));
}

#[test]
fn a_missing_key_keeps_the_selection() {
    let mut combo_box = two_items();
    assert_eq!(combo_box.set_selected_index(1), Ok(()));
    assert_eq!(combo_box.set_selected_index(3), Err(ComboBoxError::KeyNotExist(3)));
    assert_eq!(combo_box.get_selected_key(), Some(1));
    assert_eq!(combo_box.get_selected_label(), Some("A".to_string()));
}

#[test]
fn a_selection_can_be_replaced() {
    let mut combo_box = two_items();
    assert_eq!(combo_box.set_selected_index(1), Ok(()));
    assert_eq!(combo_box.set_selected_index(2), Ok(()));
    assert_eq!(combo_box.get_selected_key(), Some(2));
    assert_eq!(combo_box.get_selected_label(), Some("B".to_string()));
}

#[test]
fn adding_items_keeps_the_selection() {
    let mut combo_box = two_items();
    assert_eq!(combo_box.set_selected_index(2), Ok(()));
    let mut combo_box = combo_box
        .add_item(3, "C".to_string())
        .add_items(vec![ComboBoxItem::new(2, "shadowed".to_string())]);
    assert_eq!(combo_box.get_selected_key(), Some(2));
    assert_eq!(combo_box.get_selected_label(), Some("B".to_string()));
    assert_eq!(combo_box.set_selected_index(3), Ok(()));
    assert_eq!(combo_box.get_selected_label(), Some("C".to_string()));
}

#[test]
fn items_added_in_bulk_keep_their_order() {
    let items = vec![
        ComboBoxItem::new(7, "first".to_string()),
        ComboBoxItem::new(8, "second".to_string()),
        ComboBoxItem::new(7, "third".to_string()),
    ];
    let mut combo_box = ComboBox::new().add_item(8, "zeroth".to_string()).add_items(items);
    assert_eq!(combo_box.set_selected_index(7), Ok(()));
    assert_eq!(combo_box.get_selected_label(), Some("first".to_string()));
    assert_eq!(combo_box.set_selected_index(8), Ok(()));
    assert_eq!(combo_box.get_selected_label(), Some("zeroth".to_string()));
}

#[test]
fn bulk_add_is_repeated_add() {
    let mut bulk = ComboBox::new().add_items(vec![
        ComboBoxItem::new(1, "A".to_string()),
        ComboBoxItem::new(2, "B".to_string()),
    ]);
    let mut single = two_items();
    for key in 0..4 {
        assert_eq!(bulk.set_selected_index(key), single.set_selected_index(key));
        assert_eq!(bulk.get_selected_key(), single.get_selected_key());
        assert_eq!(bulk.get_selected_label(), single.get_selected_label());
    }
}

#[test]
fn adding_no_items_changes_nothing() {
    let mut combo_box = two_items().add_items(Vec::new());
    assert_eq!(combo_box.set_selected_index(3), Err(ComboBoxError::KeyNotExist(3)));
    assert_eq!(combo_box.set_selected_index(1), Ok(()));
    assert_eq!(combo_box.get_selected_label(), Some("A".to_string()));
}

#[test]
fn the_error_names_the_key() {
    let mut combo_box = two_items();
    match combo_box.set_selected_index(u32::MAX) {
        Err(ComboBoxError::KeyNotExist(key)) => assert_eq!(key, u32::MAX),
        other => panic!("unexpected result: {:?}", other),
    }
}
