use std::cmp::Ordering;
use worldmaster::binary::{from_bytes, hash_value, to_bytes};
use worldmaster::error::{DecodeError, Field};
use worldmaster::shape::{BaseHeight, Points2D, Polygon2D, PyShape3D, Shape3D, Vector2D, Vector3D};
use worldmaster::text::{from_json, to_json};

fn square() -> Polygon2D {
    Polygon2D::new(Points2D::new(vec![
        Vector2D::new(0, 0),
        Vector2D::new(0, 2),
        Vector2D::new(2, 2),
        Vector2D::new(2, 0),
    ]))
}

fn prism() -> BaseHeight {
    BaseHeight::new(square(), 5)
}

#[test]
fn vector2d_text_example() {
    let v = Vector2D::new(3, -4);
    assert_eq!(v.to_json(), "{\"x\":3,\"y\":-4}");
    assert_eq!(Vector2D::from_json("{\"x\":3,\"y\":-4}"), Ok(v));
}

#[test]
fn vector2d_binary_example() {
    let v = Vector2D::new(3, -4);
    let b = v.to_bytes();
    assert_eq!(
        b,
        vec![3, 0, 0, 0, 0, 0, 0, 0, 0xfc, 0xff, 0xff, 0xff, 0xff, 0xff, 0xff, 0xff]
    );
    assert_eq!(b.len(), 16);
    assert_eq!(Vector2D::from_bytes(&b), Ok(v));
}

#[test]
fn vector2d_lexicographic_order() {
    let a = Vector2D::new(1, 2);
    let b = Vector2D::new(1, 3);
    let c = Vector2D::new(2, 0);
    assert_eq!(a.compare(&b), Ordering::Less);
    assert_eq!(b.compare(&c), Ordering::Less);
    assert_eq!(a.compare(&c), Ordering::Less);
    assert_eq!(c.compare(&a), Ordering::Greater);
    assert!(a < b && b < c);
}

#[test]
fn vector3d_lexicographic_order() {
    let a = Vector3D::new(0, 0, 1);
    let b = Vector3D::new(0, 1, 0);
    assert_eq!(a.compare(&b), Ordering::Less);
    assert_eq!(b.compare(&a), Ordering::Greater);
    assert!(a < b);
}

#[test]
fn points_order_prefix_first() {
    let short = Points2D::new(vec![Vector2D::new(1, 1)]);
    let long = Points2D::new(vec![Vector2D::new(1, 1), Vector2D::new(0, 0)]);
    let other = Points2D::new(vec![Vector2D::new(1, 2)]);
    assert_eq!(short.compare(&long), Ordering::Less);
    assert_eq!(long.compare(&other), Ordering::Less);
    assert_eq!(short.compare(&short.clone()), Ordering::Equal);
}

#[test]
fn equality_matches_order() {
    let a = prism();
    let b = prism();
    let c = BaseHeight::new(square(), 6);
    assert!(a.equals(&b));
    assert_eq!(a.compare(&b), Ordering::Equal);
    assert!(!a.equals(&c));
    assert_eq!(a.compare(&c), Ordering::Less);
    let s = Shape3D::BaseHeight(a.clone());
    let t = Shape3D::BaseHeight(c.clone());
    assert!(s.equals(&s.clone()));
    assert_eq!(s.compare(&t), Ordering::Less);
    assert!(Vector3D::new(1, 2, 3).equals(&Vector3D::new(1, 2, 3)));
    assert!(!Vector3D::new(1, 2, 3).equals(&Vector3D::new(1, 2, 4)));
}

#[test]
fn hash_consistent_with_equality() {
    let a = prism();
    let b = prism();
    assert_eq!(hash_value(&a), hash_value(&b));
    assert_ne!(hash_value(&a), hash_value(&BaseHeight::new(square(), 6)));
    assert_eq!(
        hash_value(&Vector2D::new(3, -4)),
        hash_value(&Vector2D::new(3, -4))
    );
    // 64-bit FNV-1a of the sixteen bytes of the binary encoding.
    assert_eq!(hash_value(&Vector2D::new(3, -4)), 0x6608_2653_52bc_50fd);
    assert_eq!(hash_value(&Vector2D::new(0, 0)), 0x8820_1fb9_60ff_6465);
}

#[test]
fn binary_round_trip_every_type() {
    let v2 = Vector2D::new(i64::MIN, i64::MAX);
    assert_eq!(from_bytes::<Vector2D>(&to_bytes(&v2)), Ok(v2));
    let v3 = Vector3D::new(-1, 0, 7);
    assert_eq!(from_bytes::<Vector3D>(&to_bytes(&v3)), Ok(v3));
    let pts = Points2D::new(vec![Vector2D::new(1, 2), Vector2D::new(-3, 4)]);
    assert_eq!(from_bytes::<Points2D>(&to_bytes(&pts)), Ok(pts.clone()));
    let empty = Points2D::new(vec![]);
    assert_eq!(to_bytes(&empty), vec![0u8; 8]);
    assert_eq!(from_bytes::<Points2D>(&to_bytes(&empty)), Ok(empty));
    let poly = square();
    assert_eq!(from_bytes::<Polygon2D>(&to_bytes(&poly)), Ok(poly));
    let bh = prism();
    assert_eq!(from_bytes::<BaseHeight>(&to_bytes(&bh)), Ok(bh.clone()));
    let shape = Shape3D::BaseHeight(bh.clone());
    let bytes = to_bytes(&shape);
    assert_eq!(bytes[0], 0);
    assert_eq!(bytes.len(), 1 + 8 + 4 * 16 + 8);
    assert_eq!(from_bytes::<Shape3D>(&bytes), Ok(shape.clone()));
    let py = PyShape3D::new(shape);
    assert_eq!(from_bytes::<PyShape3D>(&to_bytes(&py)), Ok(py));
}

#[test]
fn binary_layout_of_prism() {
    let bh = BaseHeight::new(
        Polygon2D::new(Points2D::new(vec![Vector2D::new(1, -1)])),
        258,
    );
    let mut expected = vec![1u8, 0, 0, 0, 0, 0, 0, 0];
    expected.extend_from_slice(&[1, 0, 0, 0, 0, 0, 0, 0]);
    expected.extend_from_slice(&[0xff; 8]);
    expected.extend_from_slice(&[2, 1, 0, 0, 0, 0, 0, 0]);
    assert_eq!(to_bytes(&bh), expected);
}

#[test]
fn text_round_trip_every_type() {
    let v2 = Vector2D::new(i64::MIN, i64::MAX);
    assert_eq!(from_json::<Vector2D>(&to_json(&v2)), Ok(v2));
    let v3 = Vector3D::new(-1, 0, 7);
    assert_eq!(to_json(&v3), "{\"x\":-1,\"y\":0,\"z\":7}");
    assert_eq!(from_json::<Vector3D>(&to_json(&v3)), Ok(v3));
    let pts = Points2D::new(vec![Vector2D::new(1, 2), Vector2D::new(3, 4)]);
    assert_eq!(to_json(&pts), "[{\"x\":1,\"y\":2},{\"x\":3,\"y\":4}]");
    assert_eq!(from_json::<Points2D>(&to_json(&pts)), Ok(pts));
    let empty = Points2D::new(vec![]);
    assert_eq!(to_json(&empty), "[]");
    assert_eq!(from_json::<Points2D>("[]"), Ok(empty));
    let poly = square();
    assert_eq!(from_json::<Polygon2D>(&to_json(&poly)), Ok(poly));
    let bh = BaseHeight::new(
        Polygon2D::new(Points2D::new(vec![Vector2D::new(0, 1)])),
        u64::MAX,
    );
    assert_eq!(
        to_json(&bh),
        "{\"base\":{\"points\":[{\"x\":0,\"y\":1}]},\"height\":18446744073709551615}"
    );
    assert_eq!(from_json::<BaseHeight>(&to_json(&bh)), Ok(bh.clone()));
    let shape = Shape3D::BaseHeight(bh);
    assert!(to_json(&shape).starts_with("{\"BaseHeight\":{\"base\":"));
    assert_eq!(from_json::<Shape3D>(&to_json(&shape)), Ok(shape.clone()));
    let py = PyShape3D::new(shape);
    assert_eq!(from_json::<PyShape3D>(&to_json(&py)), Ok(py));
}

#[test]
fn truncated_binary_is_an_error() {
    let bh = prism();
    let full = to_bytes(&bh);
    for k in 0..full.len() {
        assert!(from_bytes::<BaseHeight>(&full[..k]).is_err());
    }
    let v = to_bytes(&Vector2D::new(3, -4));
    assert_eq!(
        from_bytes::<Vector2D>(&v[..15]),
        Err(DecodeError::UnexpectedEnd)
    );
    let shape = to_bytes(&Shape3D::BaseHeight(prism()));
    for k in 0..shape.len() {
        assert!(from_bytes::<Shape3D>(&shape[..k]).is_err());
    }
}

#[test]
fn trailing_bytes_are_an_error() {
    let mut b = to_bytes(&Vector2D::new(1, 2));
    b.push(0);
    assert_eq!(from_bytes::<Vector2D>(&b), Err(DecodeError::TrailingBytes));
    assert_eq!(
        from_json::<Vector2D>("{\"x\":1,\"y\":2} x"),
        Err(DecodeError::TrailingBytes)
    );
    assert_eq!(
        from_json::<Vector2D>("{\"x\":1,\"y\":2} \n"),
        Ok(Vector2D::new(1, 2))
    );
}

#[test]
fn missing_field_is_named() {
    assert_eq!(
        from_json::<Vector2D>("{\"x\":3}"),
        Err(DecodeError::MissingField(Field::Y))
    );
    assert_eq!(
        from_json::<Vector2D>("{\"y\":-4}"),
        Err(DecodeError::MissingField(Field::X))
    );
    assert_eq!(
        from_json::<BaseHeight>("{\"base\":{\"points\":[]}}"),
        Err(DecodeError::MissingField(Field::Height))
    );
    let e = from_json::<Vector3D>("{\"x\":1,\"y\":2}").unwrap_err();
    assert_eq!(e, DecodeError::MissingField(Field::Z));
    assert!(e.describe().contains("`z`"));
    assert_eq!(Field::Points.name(), "points");
}

#[test]
fn malformed_text_is_an_error() {
    assert_eq!(from_json::<Vector2D>(""), Err(DecodeError::UnexpectedEnd));
    assert_eq!(from_json::<Vector2D>("[1,2]"), Err(DecodeError::Syntax(0)));
    assert_eq!(
        from_json::<Vector2D>("{\"x\":,\"y\":2}"),
        Err(DecodeError::Syntax(5))
    );
    assert_eq!(
        from_json::<Points2D>("[{\"x\":1,\"y\":2};"),
        Err(DecodeError::Syntax(14))
    );
    assert_eq!(
        from_json::<Points2D>("[{\"x\":1,\"y\":2}"),
        Err(DecodeError::UnexpectedEnd)
    );
}

#[test]
fn out_of_range_numbers() {
    assert_eq!(
        from_json::<Vector2D>("{\"x\":9223372036854775808,\"y\":0}"),
        Err(DecodeError::OutOfRange(Field::X))
    );
    assert_eq!(
        from_json::<Vector2D>("{\"x\":-9223372036854775808,\"y\":0}"),
        Ok(Vector2D::new(i64::MIN, 0))
    );
    assert_eq!(
        from_json::<Vector2D>("{\"x\":0,\"y\":123456789012345678901234567890}"),
        Err(DecodeError::OutOfRange(Field::Y))
    );
    assert_eq!(
        from_json::<BaseHeight>("{\"base\":{\"points\":[]},\"height\":-1}"),
        Err(DecodeError::OutOfRange(Field::Height))
    );
}

#[test]
fn unknown_variant_is_reported() {
    let mut b = to_bytes(&Shape3D::BaseHeight(prism()));
    b[0] = 7;
    assert_eq!(from_bytes::<Shape3D>(&b), Err(DecodeError::UnknownVariant(7)));
    assert_eq!(
        from_bytes::<PyShape3D>(&[200u8]),
        Err(DecodeError::UnknownVariant(200))
    );
    assert_eq!(
        from_json::<Shape3D>("{\"Sphere\":{\"radius\":1}}"),
        Err(DecodeError::UnknownVariantName(1))
    );
    assert_eq!(
        from_json::<Shape3D>(" { \"Sphere\":{}}"),
        Err(DecodeError::UnknownVariantName(3))
    );
}

#[test]
fn length_prefix_beyond_input() {
    let mut b = vec![0xffu8; 8];
    b.extend_from_slice(&[0u8; 16]);
    assert_eq!(from_bytes::<Points2D>(&b), Err(DecodeError::UnexpectedEnd));
}

#[test]
fn describe_vector2d() {
    assert_eq!(Vector2D::new(3, -4).describe(), "<Vector2D(3, -4)>");
    assert_eq!(
        DecodeError::UnknownVariant(3).describe(),
        "unknown variant discriminant 3"
    );
    assert_eq!(
        DecodeError::Syntax(14).describe(),
        "malformed input at offset 14"
    );
    assert_eq!(
        DecodeError::UnknownVariantName(0).describe(),
        "unknown variant name at offset 0"
    );
    assert_eq!(
        DecodeError::MissingField(Field::Height).describe(),
        "missing field `height`"
    );
    assert_eq!(
        DecodeError::OutOfRange(Field::X).describe(),
        "number out of range for field `x`"
    );
    assert_eq!(DecodeError::UnexpectedEnd.describe(), "unexpected end of input");
    assert_eq!(DecodeError::TrailingBytes.describe(), "trailing input after value");
}

#[test]
fn fields_are_exposed() {
    let mut v = Vector2D::new(3, -4);
    v.x = 10;
    assert_eq!(v, Vector2D { x: 10, y: -4 });
    let p = square();
    assert_eq!(p.points.len(), 4);
    assert_eq!(p.points.get(1), Vector2D::new(0, 2));
    assert_eq!(prism().height, 5);
}

#[test]
fn fields_in_any_order() {
    assert_eq!(
        Vector2D::from_json("{\"y\":-4,\"x\":3}"),
        Ok(Vector2D::new(3, -4))
    );
    assert_eq!(
        from_json::<Vector3D>("{\"z\":3,\"x\":1,\"y\":2}"),
        Ok(Vector3D::new(1, 2, 3))
    );
    assert_eq!(
        from_json::<BaseHeight>("{\"height\":5,\"base\":{\"points\":[{\"y\":2,\"x\":1}]}}"),
        Ok(BaseHeight::new(
            Polygon2D::new(Points2D::new(vec![Vector2D::new(1, 2)])),
            5
        ))
    );
}

#[test]
fn whitespace_is_accepted() {
    assert_eq!(
        Vector2D::from_json(" { \"y\" : -4 ,\n\t\"x\" : 3 } "),
        Ok(Vector2D::new(3, -4))
    );
    assert_eq!(
        from_json::<Points2D>("[ {\"x\":1,\"y\":2} , {\"x\":3,\"y\":4} ]"),
        Ok(Points2D::new(vec![Vector2D::new(1, 2), Vector2D::new(3, 4)]))
    );
    assert_eq!(from_json::<Points2D>(" [ ] "), Ok(Points2D::new(vec![])));
    assert_eq!(
        from_json::<Shape3D>(
            "{ \"BaseHeight\" : { \"base\" : { \"points\" : [ ] } , \"height\" : 7 } }"
        ),
        Ok(Shape3D::BaseHeight(BaseHeight::new(
            Polygon2D::new(Points2D::new(vec![])),
            7
        )))
    );
}

#[test]
fn repeated_or_unknown_keys_are_syntax_errors() {
    assert_eq!(
        from_json::<Vector2D>("{\"x\":1,\"x\":2}"),
        Err(DecodeError::Syntax(7))
    );
    assert_eq!(
        from_json::<Vector2D>("{\"x\":1,\"w\":2,\"y\":3}"),
        Err(DecodeError::Syntax(7))
    );
    assert_eq!(
        from_json::<Vector2D>("{}"),
        Err(DecodeError::MissingField(Field::X))
    );
}
