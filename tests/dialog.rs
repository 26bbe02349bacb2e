use item_modal::item::{Item, ItemFormData, ItemValidationErr, Price};
use item_modal::modal::{Modal, ModalAction, ModalMsg, ModalProperties};

fn open(id: u64) -> Modal {
    Modal::create(ModalProperties {
        item: Item::new(id, "Old".to_string(), Price { units: 5, scale: 0 }),
        visible: true,
    })
}

fn save(name: &str, price: &str) -> ModalMsg {
    ModalMsg::Save(ItemFormData::new(name.to_string(), price.to_string()))
}

#[test]
fn created_dialog_shows_no_problem() {
    let m = open(1);
    assert!(m.visible);
    assert_eq!(m.item.id, 1);
    assert_eq!(m.errors(), None);
    assert_eq!(m.visible_class(), "is-active");
}

#[test]
fn closing_hides_and_reports() {
    let mut m = open(1);
    let a = m.update(ModalMsg::HideModal);
    assert!(matches!(a, ModalAction::Close));
    assert!(!m.visible);
    assert_eq!(m.visible_class(), "");
    assert_eq!(m.item.id, 1);
}

#[test]
fn rejected_save_keeps_dialog_open() {
    let mut m = open(3);
    let a = m.update(save("", "abc"));
    assert!(matches!(a, ModalAction::ShowErrors));
    assert!(m.visible);
    assert_eq!(
        m.errors(),
        Some(vec![ItemValidationErr::InvalidName, ItemValidationErr::InvalidPrice])
    );
}

#[test]
fn accepted_save_hides_and_hands_on_item() {
    let mut m = open(7);
    m.update(save("Widget", "abc"));
    let a = m.update(save("Widget", "3.25"));
    match a {
        ModalAction::Save(item) => {
            assert_eq!(item.id, 7);
            assert_eq!(item.name, "Widget");
            assert_eq!(item.price, Price { units: 325, scale: 2 });
        }
        _ => panic!("expected a saved item"),
    }
    assert!(!m.visible);
    assert_eq!(m.errors(), None);
    assert_eq!(m.item.name, "Old");
}

#[test]
fn change_replaces_item_and_visibility() {
    let mut m = open(1);
    m.update(save("", "1"));
    let r = m.change(ModalProperties { item: Item::default(), visible: false });
    assert!(r);
    assert_eq!(m.item.id, 0);
    assert!(!m.visible);
    assert_eq!(m.errors(), Some(vec![ItemValidationErr::InvalidName]));
}
