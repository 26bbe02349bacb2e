use item_modal::item::{blank, parse_price, Item, ItemFormData, ItemValidationErr, Price};

fn form(name: &str, price: &str) -> ItemFormData {
    ItemFormData::new(name.to_string(), price.to_string())
}

fn item(id: u64) -> Item {
    Item::new(id, "Old".to_string(), Price { units: 1, scale: 0 })
}

#[test]
fn empty_name_is_reported_alone() {
    let r = form("", "10.5").to_item(&item(0));
    assert_eq!(r.unwrap_err(), vec![ItemValidationErr::InvalidName]);
}

#[test]
fn non_numeric_price_is_reported_alone() {
    let r = form("Widget", "abc").to_item(&item(0));
    assert_eq!(r.unwrap_err(), vec![ItemValidationErr::InvalidPrice]);
}

#[test]
fn both_problems_in_field_order() {
    let r = form("", "abc").to_item(&item(0));
    assert_eq!(
        r.unwrap_err(),
        vec![ItemValidationErr::InvalidName, ItemValidationErr::InvalidPrice]
    );
}

#[test]
fn edit_keeps_identifier() {
    let saved = form("Widget", "3.25").to_item(&item(7)).unwrap();
    assert_eq!(saved.id, 7);
    assert_eq!(saved.name, "Widget");
    assert_eq!(saved.price, Price { units: 325, scale: 2 });
}

#[test]
fn white_space_name_is_reported() {
    for name in [" ", "\t\n", "\u{a0}\u{3000}"] {
        let e = form(name, "1").validate().unwrap_err();
        assert!(e.contains(&ItemValidationErr::InvalidName));
    }
    assert!(blank(""));
    assert!(blank("  \r\n"));
    assert!(!blank(" a "));
}

#[test]
fn bad_prices_are_reported() {
    for price in ["", "abc", "-1", "-0.5", "1.2.3", ".", "1e3", " 1", "+2", "18446744073709551616"] {
        let e = form("Widget", price).validate().unwrap_err();
        assert_eq!(e, vec![ItemValidationErr::InvalidPrice], "price {:?}", price);
    }
}

#[test]
fn good_prices_are_read_exactly() {
    let cases: [(&str, u64, usize); 8] = [
        ("0", 0, 0),
        ("10", 10, 0),
        ("10.5", 105, 1),
        ("3.250", 3250, 3),
        (".5", 5, 1),
        ("7.", 7, 0),
        ("007.01", 701, 2),
        ("18446744073709551615", u64::MAX, 0),
    ];
    for (text, units, scale) in cases {
        assert_eq!(parse_price(text), Some(Price { units, scale }), "price {:?}", text);
        assert_eq!(form("Widget", text).validate(), Ok(Price { units, scale }));
    }
    assert_eq!(parse_price("1844674407370955161.5"), Some(Price { units: u64::MAX, scale: 1 }));
    assert_eq!(parse_price("abc"), None);
}

#[test]
fn valid_form_gives_its_fields() {
    let saved = form(" Bolt ", "0.99").to_item(&item(42)).unwrap();
    assert_eq!(saved.id, 42);
    assert_eq!(saved.name, " Bolt ");
    assert_eq!(saved.price, Price { units: 99, scale: 2 });
}

#[test]
fn repeated_validation_gives_the_same_list() {
    let f = form("  ", "x1");
    let first = f.validate().unwrap_err();
    let second = f.validate().unwrap_err();
    assert_eq!(first, second);
    assert_eq!(first, vec![ItemValidationErr::InvalidName, ItemValidationErr::InvalidPrice]);
}

#[test]
fn messages_name_the_field() {
    assert_eq!(ItemValidationErr::InvalidName.message(), "Name is required");
    assert_eq!(ItemValidationErr::InvalidPrice.message(), "Invalid Price");
}

#[test]
fn default_item_is_empty() {
    let d = Item::default();
    assert_eq!(d.id, 0);
    assert_eq!(d.name, "");
    assert_eq!(d.price, Price { units: 0, scale: 0 });
}

#[test]
fn price_text_pads_and_places_the_point() {
    let cases: [(u64, usize, &str); 7] = [
        (325, 2, "3.25"),
        (5, 3, "0.005"),
        (0, 0, "0"),
        (0, 2, "0.00"),
        (105, 1, "10.5"),
        (3250, 3, "3.250"),
        (u64::MAX, 0, "18446744073709551615"),
    ];
    for (units, scale, text) in cases {
        assert_eq!(Price { units, scale }.to_text(), text);
        assert_eq!(parse_price(text), Some(Price { units, scale }));
    }
}
