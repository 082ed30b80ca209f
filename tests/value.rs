use machina::value::{Value, NULL_TAG, FALSE_TAG, TRUE_TAG};

#[test]
fn booleans() {
    let b = Value::from(2 == 2);
    assert_eq!(b, Value::raw(TRUE_TAG));
    let b = Value::from(2 != 2);
    assert_eq!(b, Value::raw(FALSE_TAG));
}

#[test]
fn numbers() {
    let a = Value::raw(3.141592f64.to_bits());
    assert!(a.is_num());
    assert_eq!(f64::from_bits(a.get_raw()), 3.141592);
}

#[test]
fn nans() {
    let a = Value::nan();
    assert!(!a.is_num());
    assert!(f64::from_bits(a.get_raw()).is_nan());
}

#[test]
fn char_simple() {
    let hello = vec![
        Value::from('h'),
        Value::from('e'),
        Value::from('l'),
        Value::from('l'),
        Value::from('o'),
    ];

    for c in hello.iter() {
        assert!(c.is_char());
    }

    assert_eq!(
        "hello",
        hello.iter().map(Value::get_char_unchecked).collect::<String>()
    );
}

#[test]
fn char_complex() {
    let hello = "こんにちは".chars().into_iter().map(Value::from).collect::<Vec<_>>();

    for c in hello.iter() {
        assert!(c.is_char());
    }

    assert_eq!(
        "こんにちは",
        hello.iter().map(Value::get_char_unchecked).collect::<String>()
    );
}

#[test]
fn int_positive() {
    let a = Value::from((2i64.pow(31) - 1) as i32);
    assert!(a.is_int());
    assert_eq!(a.get_int_unchecked(), 2147483647);
}

#[test]
fn int_negative() {
    let a = Value::from(-321);
    assert!(a.is_int());
    assert_eq!(a.get_int_unchecked(), -321);
}

#[test]
fn nulls() {
    let a = Value::null();
    assert!(a.is_null());
    assert_eq!(a, Value::raw(NULL_TAG));
}

#[test]
fn ptrs() {
    let val = Value::from(42);
    let address: u64 = 0x7ffd_1234_5678;
    let p = Value::ptr(address);
    assert!(p.is_ptr());
    assert_eq!(p.get_raw() & 0xffff_ffff_ffff, address);
    assert!(val.is_int());
    assert_eq!(val.get_int_unchecked(), 42);
}

#[test]
fn equality() {
    let a = Value::from(123);
    let b = Value::from(123);
    let c = Value::from(321);
    assert!(a.is_int());
    assert!(b.is_int());
    assert!(c.is_int());
    assert_eq!(a, b);
    assert_ne!(a, c);
    assert_ne!(b, c);
}

#[test]
fn tags_are_exclusive() {
    let values = [
        Value::from(-1),
        Value::from('x'),
        Value::from(true),
        Value::from(false),
        Value::null(),
        Value::function(3),
        Value::ptr(0x1234),
    ];
    assert!(values[0].is_int() && !values[0].is_char() && !values[0].is_null());
    assert!(values[1].is_char() && !values[1].is_int());
    assert!(values[2].is_true() && !values[2].is_false());
    assert!(values[3].is_false() && !values[3].is_true());
    assert!(values[4].is_null() && !values[4].is_int() && !values[4].is_ptr());
    assert!(values[5].is_function() && values[5].get_raw() & 0xffff_ffff == 3);
    assert!(values[6].is_ptr() && !values[6].is_num());
    for v in values.iter() {
        assert!(!v.is_num());
    }
    assert_eq!(Value::from(-2147483648).get_int(), i32::MIN);
    assert_eq!(Value::from(-7).as_int(), -7i64);
    assert_eq!(Value::from('é').get_char(), 'é');
}

#[test]
fn equal_sources_give_equal_words() {
    assert_eq!(Value::from(7), Value::from(7));
    assert_ne!(Value::from(7), Value::from(-7));
    assert_eq!(Value::from('a'), Value::from('a'));
    assert_ne!(Value::from('a'), Value::from('b'));
    assert_eq!(Value::from(true), Value::from(true));
    assert_ne!(Value::from(true), Value::from(false));
    assert_eq!(Value::null(), Value::null());
    assert_eq!(Value::raw(2.5f64.to_bits()), Value::raw(2.5f64.to_bits()));
}

#[test]
fn text_of_values() {
    assert_eq!(Value::from(0).text(), Some("0".to_string()));
    assert_eq!(Value::from(-2147483648).text(), Some("-2147483648".to_string()));
    assert_eq!(Value::from(1234).text(), Some("1234".to_string()));
    assert_eq!(Value::from('λ').text(), Some("λ".to_string()));
    assert_eq!(Value::from(true).text(), Some("true".to_string()));
    assert_eq!(Value::from(false).text(), Some("false".to_string()));
    assert_eq!(Value::null().text(), Some("null".to_string()));
    assert_eq!(Value::nan().text(), Some("NAN".to_string()));
    assert_eq!(Value::ptr(0xab).text(), Some("0x000000AB".to_string()));
    assert_eq!(Value::ptr(0x1234_5678_9abc).text(), Some("0x123456789ABC".to_string()));
    assert_eq!(Value::function(7).text(), Some("@7".to_string()));
    assert_eq!(Value::raw(1.5f64.to_bits()).text(), None);
}

#[test]
fn boolean_and_null_tests_read_the_tag() {
    assert!(Value::raw(0xfffd_0000_0000_0001).is_true());
    assert!(Value::raw(0xfffe_0000_0000_00ff).is_false());
    assert!(Value::raw(0xffff_0000_0000_0002).is_null());
    assert!(!Value::raw(0xfffc_0000_0000_0000).is_true());
    assert_eq!(Value::raw(0xfffd_0000_0000_0001).text(), Some("true".to_string()));
}
