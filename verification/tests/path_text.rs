//! Paths: construction, ordering, and the text round trip.

use edfsm::path::Order;
use edfsm::ParseError;
use edfsm::Path;
use edfsm::PathItem;

fn path_from(items: &[PathItem]) -> Path {
    let mut p = Path::root();
    for it in items {
        p.push(it.clone());
    }
    p
}

#[test]
fn path_test() {
    // building from various types
    let version = "V1.6";
    let path = path_from(&[
        PathItem::name("CSMS"),
        PathItem::number(65),
        PathItem::name(&format!("EVSE-{version}")),
        PathItem::number(2),
    ]);

    // indexing
    let evse: u64 = match path.item(3) {
        PathItem::Number(n) => *n,
        _ => panic!("test failed"),
    };
    assert_eq!(evse, 2);

    // indexing again
    let x: Option<String> = match path.item(2) {
        PathItem::Name(s) => Some(s.clone()),
        _ => None,
    };
    assert_eq!(x.unwrap(), "EVSE-V1.6");

    // the last item
    if let PathItem::Number(evse) = path.item(path.len() - 1) {
        assert_eq!(*evse, 2);
    } else {
        panic!("test failed")
    }

    // pattern matching on the leading items
    match (path.item(0), path.item(1)) {
        (PathItem::Name(x), PathItem::Number(csms)) if x == "CSMS" => {
            assert_eq!(*csms, 65)
        }
        _ => panic!("test failed"),
    }

    // iterating
    let mut csms: Option<u64> = None;
    for i in 0..path.len() {
        if let PathItem::Number(n) = path.item(i) {
            csms = Some(*n);
            break;
        }
    }
    assert_eq!(csms, Some(65));
}

#[test]
fn to_string_1() {
    let p = path_from(&[PathItem::name("CS"), PathItem::number(1)]);
    assert_eq!(p.to_string(), "/CS/1");
}

#[test]
fn to_string_2() {
    let p = path_from(&[
        PathItem::name("CS/MS"),
        PathItem::number(65),
        PathItem::name("EV?S&E"),
        PathItem::number(2),
    ]);
    assert_eq!(p.to_string(), "/CS%2FMS/65/EV%3FS%26E/2");
}

#[test]
fn to_string_3() {
    let p = path_from(&[PathItem::name("CS"), PathItem::name("2")]);
    assert_eq!(p.to_string(), "/CS/'2");
}

#[test]
fn to_string_4() {
    let p = path_from(&[PathItem::name("'CS"), PathItem::number(2)]);
    assert_eq!(p.to_string(), "/''CS/2");
}

#[test]
fn from_string_1() {
    let p = path_from(&[PathItem::name("CS"), PathItem::number(1)]);
    assert_eq!(Path::from_str("/CS/1"), Ok(p));
}

#[test]
fn from_string_2() {
    let p = path_from(&[
        PathItem::name("CS/MS"),
        PathItem::number(65),
        PathItem::name("EV?S&E"),
        PathItem::number(2),
    ]);
    assert_eq!(Path::from_str("/CS%2FMS/65/EV%3FS%26E/2"), Ok(p));
}

#[test]
fn from_string_3() {
    let p = path_from(&[PathItem::name("CS"), PathItem::name("2")]);
    assert_eq!(Path::from_str("/CS/'2"), Ok(p));
}

#[test]
fn from_string_4() {
    let p = path_from(&[PathItem::name("'CS"), PathItem::number(2)]);
    assert_eq!(Path::from_str("/''CS/2"), Ok(p));
}

#[test]
fn from_string_no_root_err() {
    assert_eq!(Path::from_str("CS"), Err(ParseError::NoRoot));
}

#[test]
fn from_string_bad_int_err() {
    assert!(matches!(Path::from_str("/1n"), Err(ParseError::BadInt)));
}

#[test]
fn from_string_number_too_large() {
    // one past the largest u64
    assert!(matches!(
        Path::from_str("/18446744073709551616"),
        Err(ParseError::BadInt)
    ));
    // the largest u64 itself is fine
    let p = path_from(&[PathItem::number(u64::MAX)]);
    assert_eq!(Path::from_str("/18446744073709551615"), Ok(p));
}

#[test]
fn root_is_the_bare_separator() {
    // the root path is marked by a leading separator, not the empty string
    assert_eq!(Path::root().to_string(), "/");
    assert_eq!(Path::from_str("/"), Ok(Path::root()));
    assert_eq!(Path::from_str(""), Err(ParseError::NoRoot));
}

#[test]
fn empty_name_is_not_the_root() {
    // an empty name takes the quote form, so its text differs from "/"
    let p = path_from(&[PathItem::name("")]);
    assert_eq!(p.to_string(), "/'");
    assert_eq!(Path::from_str("/'"), Ok(p.clone()));
    assert_ne!(p, Path::root());
}

#[test]
fn default_is_root() {
    assert_eq!(Path::default(), Path::root());
    assert_eq!(Path::default(), edfsm::root());
    assert!(Path::default().is_empty());
    assert_eq!(Path::default().len(), 0);
}

#[test]
fn round_trip_various() {
    let cases = vec![
        path_from(&[PathItem::name("plain")]),
        path_from(&[PathItem::name("needs escape%"), PathItem::number(0)]),
        path_from(&[PathItem::name(""), PathItem::name("x")]),
        path_from(&[PathItem::number(10), PathItem::name("9lives")]),
    ];
    for p in cases {
        let text = p.to_string();
        assert_eq!(Path::from_str(&text), Ok(p));
    }
}

#[test]
fn prefix_implies_le() {
    // a prefix sorts no later than what it prefixes
    let p = path_from(&[PathItem::name("a")]);
    let q = path_from(&[PathItem::name("a"), PathItem::number(1)]);
    assert!(p.is_prefix_of(&q));
    assert!(matches!(p.compare(&q), Order::Less));
    assert!(p.is_prefix_of(&p));
    assert!(matches!(p.compare(&p), Order::Equal));
    assert!(!q.is_prefix_of(&p));
}

#[test]
fn path_order_cases() {
    // numbers sort before names, numbers by value, names by characters
    let n1 = path_from(&[PathItem::number(1)]);
    let n2 = path_from(&[PathItem::number(2)]);
    let na = path_from(&[PathItem::name("a")]);
    let nb = path_from(&[PathItem::name("b")]);
    let root = Path::root();
    assert!(matches!(n1.compare(&n2), Order::Less));
    assert!(matches!(n2.compare(&na), Order::Less));
    assert!(matches!(na.compare(&nb), Order::Less));
    assert!(matches!(root.compare(&n1), Order::Less));
    assert!(matches!(nb.compare(&n1), Order::Greater));
}
