use crate::binary::{decode_spec, fnv1a, Binary, BASE_HEIGHT_TAG};
use crate::error::{DecodeError, Field};
use crate::shape::{
    lemma_points_order_equal, points_order, prism_order, solid_order, vector2d_order,
    vector3d_order, PrismModel, Shape3D, SolidModel, Vector2D, Vector3D,
};
use crate::text::{
    decode_text_spec, field_key, int_text, lemma_byte_at, lemma_close_then, lemma_field_key,
    lemma_comma_then, lemma_i64_field, lemma_int_text_first, lemma_member_key, lemma_names_differ,
    lemma_split, open_container, quoted, vector2d_members, vector2d_parse_text, has_at, CLOSE_BRACE,
    COMMA, OPEN_BRACE,
};
use crate::text::field_name;
use std::cmp::Ordering;
use vstd::prelude::*;

verus! {

/// Two 2D vectors compare as equal exactly when they are equal.
pub proof fn law_vector2d_order_equality(a: Vector2D, b: Vector2D)
    ensures
        vector2d_order(a, b) == Ordering::Equal <==> a == b,
{
}

/// Two 3D vectors compare as equal exactly when they are equal.
pub proof fn law_vector3d_order_equality(a: Vector3D, b: Vector3D)
    ensures
        vector3d_order(a, b) == Ordering::Equal <==> a == b,
{
}

/// Two point sequences (or polygons) compare as equal exactly when they are equal.
pub proof fn law_points_order_equality(a: Seq<Vector2D>, b: Seq<Vector2D>)
    ensures
        points_order(a, b) == Ordering::Equal <==> a == b,
{
    lemma_points_order_equal(a, b);
}

/// Two prisms compare as equal exactly when they are equal.
pub proof fn law_prism_order_equality(a: PrismModel, b: PrismModel)
    ensures
        prism_order(a, b) == Ordering::Equal <==> a == b,
{
    lemma_points_order_equal(a.base, b.base);
}

/// Two shapes compare as equal exactly when they are equal.
pub proof fn law_solid_order_equality(a: SolidModel, b: SolidModel)
    ensures
        solid_order(a, b) == Ordering::Equal <==> a == b,
{
    match (a, b) {
        (SolidModel::BaseHeight(p), SolidModel::BaseHeight(q)) => {
            lemma_points_order_equal(p.base, q.base);
        },
    }
}

/// Equal values have equal hashes.
pub proof fn law_hash_consistent<T: Binary>(a: T::V, b: T::V)
    requires
        a == b,
    ensures
        fnv1a(T::wire(a)) == fnv1a(T::wire(b)),
{
}

/// A shape blob whose first byte names no known variant is rejected as an
/// unknown variant, with that byte reported, whatever follows it.
pub proof fn law_unknown_discriminant(b: Seq<u8>)
    requires
        b.len() >= 1,
        b[0] != BASE_HEIGHT_TAG,
    ensures
        decode_spec::<Shape3D>(b) == Err::<SolidModel, DecodeError>(
            DecodeError::UnknownVariant(b[0] as u32),
        ),
{
}

/// A 2D vector text that ends after its `x` member is rejected, naming `y` as
/// the missing field.
pub proof fn law_missing_field(x: i64)
    ensures
        decode_text_spec::<Vector2D>(
            seq![OPEN_BRACE] + field_key(true, Field::X) + int_text(x as int) + seq![CLOSE_BRACE],
        ) == Err::<Vector2D, DecodeError>(DecodeError::MissingField(Field::Y)),
{
    let a = seq![OPEN_BRACE];
    let k = field_key(true, Field::X);
    let t = int_text(x as int);
    let z = seq![CLOSE_BRACE];
    let b = a + k + t + z;
    assert(b.subrange(0, b.len() as int) =~= b);
    lemma_field_key(Field::X);
    lemma_int_text_first(x as int);
    lemma_split(b, 0, a + k + t, z);
    lemma_split(b, 0, a + k, t);
    lemma_split(b, 0, a, k);
    lemma_byte_at(b, 0, a);
    lemma_byte_at(b, 1, k);
    let p2 = 1 + k.len() as int;
    let p3 = p2 + t.len() as int;
    assert(open_container(b, 0, OPEN_BRACE, CLOSE_BRACE) == Ok::<(bool, int), DecodeError>(
        (false, 1),
    ));
    lemma_member_key(b, 1, Field::X, t);
    lemma_i64_field(x, b, p2, Field::X, z);
    lemma_close_then(b, p3, CLOSE_BRACE);
}

/// A 2D vector object with its `y` member first.
pub open spec fn vector2d_text_y_first(v: Vector2D) -> Seq<u8> {
    seq![OPEN_BRACE] + quoted(field_name(Field::Y)) + int_text(v.y as int) + seq![COMMA] + quoted(
        field_name(Field::X),
    ) + int_text(v.x as int) + seq![CLOSE_BRACE]
}

proof fn lemma_y_first(v: Vector2D, b: Seq<u8>, pos: int)
    requires
        has_at(b, pos, vector2d_text_y_first(v)),
    ensures
        vector2d_parse_text(b, pos) == Ok::<(Vector2D, int), DecodeError>(
            (v, pos + vector2d_text_y_first(v).len()),
        ),
{
    let a = seq![OPEN_BRACE];
    let k1 = quoted(field_name(Field::Y));
    let t1 = int_text(v.y as int);
    let c = seq![COMMA];
    let k2 = quoted(field_name(Field::X));
    let t2 = int_text(v.x as int);
    let z = seq![CLOSE_BRACE];
    lemma_field_key(Field::X);
    lemma_field_key(Field::Y);
    lemma_names_differ();
    lemma_int_text_first(v.x as int);
    lemma_int_text_first(v.y as int);
    lemma_split(b, pos, a + k1 + t1 + c + k2 + t2, z);
    lemma_split(b, pos, a + k1 + t1 + c + k2, t2);
    lemma_split(b, pos, a + k1 + t1 + c, k2);
    lemma_split(b, pos, a + k1 + t1, c);
    lemma_split(b, pos, a + k1, t1);
    lemma_split(b, pos, a, k1);
    lemma_byte_at(b, pos, a);
    lemma_byte_at(b, pos + 1, k1);
    let p1 = pos + 1;
    let p2 = p1 + k1.len();
    let p3 = p2 + t1.len();
    let p4 = p3 + 1 + k2.len();
    let p5 = p4 + t2.len();
    assert(open_container(b, pos, OPEN_BRACE, CLOSE_BRACE) == Ok::<(bool, int), DecodeError>(
        (false, p1),
    ));
    lemma_member_key(b, p1, Field::Y, t1);
    assert(has_at(b, p3, c + k2)) by {
        assert(a + k1 + t1 + c + k2 =~= (a + k1 + t1) + (c + k2));
        lemma_split(b, pos, a + k1 + t1, c + k2);
    }
    lemma_i64_field(v.y, b, p2, Field::Y, c + k2);
    lemma_comma_then(b, p3, CLOSE_BRACE, k2);
    lemma_member_key(b, p3 + 1, Field::X, t2);
    lemma_i64_field(v.x, b, p4, Field::X, z);
    lemma_close_then(b, p5, CLOSE_BRACE);
    assert(vector2d_members(b, p3 + 1, None, Some(v.y)) == Ok::<(Vector2D, int), DecodeError>(
        (v, p5 + 1),
    ));
    assert(vector2d_members(b, p1, None, None) == vector2d_members(b, p3 + 1, None, Some(v.y)));
}

/// A 2D vector object whose `y` member comes before its `x` member decodes to
/// the same vector: members are matched by name, not by place.
pub proof fn law_fields_any_order(v: Vector2D)
    ensures
        decode_text_spec::<Vector2D>(vector2d_text_y_first(v)) == Ok::<Vector2D, DecodeError>(v),
{
    let w = vector2d_text_y_first(v);
    assert(w.subrange(0, w.len() as int) =~= w);
    lemma_y_first(v, w, 0);
}

} // verus!
