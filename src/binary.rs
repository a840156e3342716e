use crate::bytes::{
    i64_at, i64_le, lemma_i64_read_write, lemma_i64_write_read, lemma_u64_read_write,
    lemma_u64_write_read, push_i64, push_u64, read_i64, read_u64, u64_at, u64_le,
};
use crate::error::DecodeError;
use crate::shape::{
    BaseHeight, Points2D, Polygon2D, PrismModel, PyShape3D, Shape3D, SolidModel, Vector2D,
    Vector3D,
};
use vstd::prelude::*;

verus! {

/// A read result with its position as a mathematical integer and its value as a model.
pub open spec fn lift<T: View>(r: Result<(T, usize), DecodeError>) -> Result<
    (T::V, int),
    DecodeError,
> {
    match r {
        Ok((v, p)) => Ok((v@, p as int)),
        Err(e) => Err(e),
    }
}

/// The compact binary encoding: fixed-width little-endian integers in field
/// order, sequences prefixed by their length, unions by a one-byte discriminant.
pub trait Binary: View + Sized {
    /// The models that a value of the type can have.
    spec fn valid(m: Self::V) -> bool;

    /// The encoding of a model.
    spec fn wire(m: Self::V) -> Seq<u8>;

    /// Reads one value starting at `pos`: its model and the position after it.
    spec fn parse(b: Seq<u8>, pos: int) -> Result<(Self::V, int), DecodeError>;

    /// Reading an encoding gives back the model and stops right after it.
    proof fn lemma_parse_wire(m: Self::V, b: Seq<u8>, pos: int)
        requires
            Self::valid(m),
            0 <= pos,
            pos + Self::wire(m).len() <= b.len(),
            b.subrange(pos, pos + Self::wire(m).len()) == Self::wire(m),
        ensures
            Self::parse(b, pos) == Ok::<(Self::V, int), DecodeError>(
                (m, pos + Self::wire(m).len()),
            ),
    ;

    /// What was read is exactly the encoding of the value read.
    proof fn lemma_parse_sound(b: Seq<u8>, pos: int)
        requires
            0 <= pos <= b.len(),
            Self::parse(b, pos) is Ok,
        ensures
            ({
                let (m, p) = Self::parse(b, pos)->Ok_0;
                &&& pos <= p <= b.len()
                &&& b.subrange(pos, p) == Self::wire(m)
                &&& Self::valid(m)
            }),
    ;

    fn write_bytes(&self, out: &mut Vec<u8>)
        ensures
            final(out)@ == old(out)@ + Self::wire(self@),
            Self::valid(self@),
    ;

    fn read_bytes(b: &[u8], pos: usize) -> (r: Result<(Self, usize), DecodeError>)
        requires
            pos <= b@.len(),
        ensures
            lift::<Self>(r) == Self::parse(b@, pos as int),
    ;
}

/// Decoding a whole blob: one value that uses up every byte.
pub open spec fn decode_spec<T: Binary>(b: Seq<u8>) -> Result<T::V, DecodeError> {
    match T::parse(b, 0) {
        Ok((m, p)) => if p == b.len() {
            Ok(m)
        } else {
            Err(DecodeError::TrailingBytes)
        },
        Err(e) => Err(e),
    }
}

/// Encodes a value in the compact binary format.
pub fn to_bytes<T: Binary>(v: &T) -> (r: Vec<u8>)
    ensures
        r@ == T::wire(v@),
        T::valid(v@),
{
    let mut out: Vec<u8> = Vec::new();
    v.write_bytes(&mut out);
    assert(out@ =~= T::wire(v@));
    out
}

/// Decodes a value from a blob in the compact binary format.
pub fn from_bytes<T: Binary>(b: &[u8]) -> (r: Result<T, DecodeError>)
    ensures
        match r {
            Ok(v) => decode_spec::<T>(b@) == Ok::<T::V, DecodeError>(v@),
            Err(e) => decode_spec::<T>(b@) == Err::<T::V, DecodeError>(e),
        },
{
    match T::read_bytes(b, 0) {
        Ok((v, p)) => {
            if p == b.len() {
                Ok(v)
            } else {
                Err(DecodeError::TrailingBytes)
            }
        },
        Err(e) => Err(e),
    }
}

/// Decoding the binary encoding of any value gives that value back.
pub proof fn law_binary_round_trip<T: Binary>(m: T::V)
    requires
        T::valid(m),
    ensures
        decode_spec::<T>(T::wire(m)) == Ok::<T::V, DecodeError>(m),
{
    let w = T::wire(m);
    assert(w.subrange(0, w.len() as int) =~= w);
    T::lemma_parse_wire(m, w, 0);
}

/// Dropping bytes from the end of a binary encoding never decodes: not to the
/// value, and not to any other value.
pub proof fn law_binary_truncation<T: Binary>(m: T::V, k: int)
    requires
        T::valid(m),
        0 <= k < T::wire(m).len(),
    ensures
        decode_spec::<T>(T::wire(m).subrange(0, k)) is Err,
{
    let w = T::wire(m);
    let t = w.subrange(0, k);
    if T::parse(t, 0) is Ok {
        T::lemma_parse_sound(t, 0);
        let (n, p) = T::parse(t, 0)->Ok_0;
        if p == t.len() {
            assert(t.subrange(0, p) =~= t);
            assert(w.subrange(0, T::wire(n).len() as int) =~= t);
            T::lemma_parse_wire(n, w, 0);
            assert(w.subrange(0, w.len() as int) =~= w);
            T::lemma_parse_wire(m, w, 0);
        }
    }
}

// ---- points ----

pub open spec fn vector2d_wire(v: Vector2D) -> Seq<u8> {
    i64_le(v.x) + i64_le(v.y)
}

pub open spec fn vector2d_at(b: Seq<u8>, pos: int) -> Vector2D {
    Vector2D { x: i64_at(b, pos), y: i64_at(b, pos + 8) }
}

proof fn lemma_vector2d_read(v: Vector2D, b: Seq<u8>, pos: int)
    requires
        0 <= pos,
        pos + 16 <= b.len(),
        b.subrange(pos, pos + 16) == vector2d_wire(v),
    ensures
        vector2d_at(b, pos) == v,
{
    assert(b.subrange(pos, pos + 8) =~= b.subrange(pos, pos + 16).subrange(0, 8));
    assert(b.subrange(pos + 8, pos + 16) =~= b.subrange(pos, pos + 16).subrange(8, 16));
    assert(vector2d_wire(v).subrange(0, 8) =~= i64_le(v.x));
    assert(vector2d_wire(v).subrange(8, 16) =~= i64_le(v.y));
    lemma_i64_read_write(v.x, b, pos);
    lemma_i64_read_write(v.y, b, pos + 8);
}

proof fn lemma_vector2d_sound(b: Seq<u8>, pos: int)
    requires
        0 <= pos,
        pos + 16 <= b.len(),
    ensures
        vector2d_wire(vector2d_at(b, pos)) == b.subrange(pos, pos + 16),
{
    lemma_i64_write_read(b, pos);
    lemma_i64_write_read(b, pos + 8);
    assert(b.subrange(pos, pos + 8) + b.subrange(pos + 8, pos + 16) =~= b.subrange(pos, pos + 16));
}

fn read_vector2d(b: &[u8], pos: usize) -> (r: Vector2D)
    requires
        pos + 16 <= b.len(),
    ensures
        r == vector2d_at(b@, pos as int),
{
    Vector2D { x: read_i64(b, pos), y: read_i64(b, pos + 8) }
}

impl Binary for Vector2D {
    open spec fn valid(m: Vector2D) -> bool {
        true
    }

    open spec fn wire(m: Vector2D) -> Seq<u8> {
        vector2d_wire(m)
    }

    open spec fn parse(b: Seq<u8>, pos: int) -> Result<(Vector2D, int), DecodeError> {
        if pos < 0 || pos + 16 > b.len() {
            Err(DecodeError::UnexpectedEnd)
        } else {
            Ok((vector2d_at(b, pos), pos + 16))
        }
    }

    proof fn lemma_parse_wire(m: Vector2D, b: Seq<u8>, pos: int) {
        lemma_vector2d_read(m, b, pos);
    }

    proof fn lemma_parse_sound(b: Seq<u8>, pos: int) {
        lemma_vector2d_sound(b, pos);
    }

    fn write_bytes(&self, out: &mut Vec<u8>) {
        push_i64(out, self.x);
        push_i64(out, self.y);
        assert(final(out)@ =~= old(out)@ + Self::wire(self@));
    }

    fn read_bytes(b: &[u8], pos: usize) -> (r: Result<(Vector2D, usize), DecodeError>) {
        if b.len() - pos < 16 {
            Err(DecodeError::UnexpectedEnd)
        } else {
            Ok((read_vector2d(b, pos), pos + 16))
        }
    }
}

pub open spec fn vector3d_wire(v: Vector3D) -> Seq<u8> {
    i64_le(v.x) + i64_le(v.y) + i64_le(v.z)
}

pub open spec fn vector3d_at(b: Seq<u8>, pos: int) -> Vector3D {
    Vector3D { x: i64_at(b, pos), y: i64_at(b, pos + 8), z: i64_at(b, pos + 16) }
}

impl Binary for Vector3D {
    open spec fn valid(m: Vector3D) -> bool {
        true
    }

    open spec fn wire(m: Vector3D) -> Seq<u8> {
        vector3d_wire(m)
    }

    open spec fn parse(b: Seq<u8>, pos: int) -> Result<(Vector3D, int), DecodeError> {
        if pos < 0 || pos + 24 > b.len() {
            Err(DecodeError::UnexpectedEnd)
        } else {
            Ok((vector3d_at(b, pos), pos + 24))
        }
    }

    proof fn lemma_parse_wire(m: Vector3D, b: Seq<u8>, pos: int) {
        let s = b.subrange(pos, pos + 24);
        assert(b.subrange(pos, pos + 8) =~= s.subrange(0, 8));
        assert(b.subrange(pos + 8, pos + 16) =~= s.subrange(8, 16));
        assert(b.subrange(pos + 16, pos + 24) =~= s.subrange(16, 24));
        assert(vector3d_wire(m).subrange(0, 8) =~= i64_le(m.x));
        assert(vector3d_wire(m).subrange(8, 16) =~= i64_le(m.y));
        assert(vector3d_wire(m).subrange(16, 24) =~= i64_le(m.z));
        lemma_i64_read_write(m.x, b, pos);
        lemma_i64_read_write(m.y, b, pos + 8);
        lemma_i64_read_write(m.z, b, pos + 16);
    }

    proof fn lemma_parse_sound(b: Seq<u8>, pos: int) {
        lemma_i64_write_read(b, pos);
        lemma_i64_write_read(b, pos + 8);
        lemma_i64_write_read(b, pos + 16);
        assert(b.subrange(pos, pos + 8) + b.subrange(pos + 8, pos + 16) + b.subrange(
            pos + 16,
            pos + 24,
        ) =~= b.subrange(pos, pos + 24));
    }

    fn write_bytes(&self, out: &mut Vec<u8>) {
        push_i64(out, self.x);
        push_i64(out, self.y);
        push_i64(out, self.z);
        assert(final(out)@ =~= old(out)@ + Self::wire(self@));
    }

    fn read_bytes(b: &[u8], pos: usize) -> (r: Result<(Vector3D, usize), DecodeError>) {
        if b.len() - pos < 24 {
            Err(DecodeError::UnexpectedEnd)
        } else {
            let v = Vector3D {
                x: read_i64(b, pos),
                y: read_i64(b, pos + 8),
                z: read_i64(b, pos + 16),
            };
            Ok((v, pos + 24))
        }
    }
}

// ---- sequences ----

pub open spec fn points_body(s: Seq<Vector2D>) -> Seq<u8>
    decreases s.len(),
{
    if s.len() == 0 {
        Seq::empty()
    } else {
        points_body(s.drop_last()) + vector2d_wire(s.last())
    }
}

pub open spec fn points_wire(s: Seq<Vector2D>) -> Seq<u8> {
    u64_le(s.len() as u64) + points_body(s)
}

/// The `n` points stored back to back from `pos`.
pub open spec fn points_at(b: Seq<u8>, pos: int, n: nat) -> Seq<Vector2D> {
    Seq::new(n, |i: int| vector2d_at(b, pos + 16 * i))
}

pub open spec fn points_parse(b: Seq<u8>, pos: int) -> Result<(Seq<Vector2D>, int), DecodeError> {
    if pos < 0 || pos + 8 > b.len() {
        Err(DecodeError::UnexpectedEnd)
    } else {
        let n = u64_at(b, pos);
        if b.len() - (pos + 8) < 16 * n {
            Err(DecodeError::UnexpectedEnd)
        } else {
            Ok((points_at(b, pos + 8, n as nat), pos + 8 + 16 * n))
        }
    }
}

proof fn lemma_points_body(s: Seq<Vector2D>)
    ensures
        points_body(s).len() == 16 * s.len(),
        forall|i: int|
            0 <= i < s.len() ==> #[trigger] points_body(s).subrange(16 * i, 16 * i + 16)
                == vector2d_wire(s[i]),
    decreases s.len(),
{
    if s.len() > 0 {
        let t = s.drop_last();
        lemma_points_body(t);
        let w = points_body(s);
        assert forall|i: int| 0 <= i < s.len() implies #[trigger] w.subrange(16 * i, 16 * i + 16)
            == vector2d_wire(s[i]) by {
            if i < t.len() {
                assert(w.subrange(16 * i, 16 * i + 16) =~= points_body(t).subrange(
                    16 * i,
                    16 * i + 16,
                ));
            } else {
                assert(w.subrange(16 * i, 16 * i + 16) =~= vector2d_wire(s.last()));
            }
        }
    }
}

proof fn lemma_points_body_sound(b: Seq<u8>, pos: int, n: nat)
    requires
        0 <= pos,
        pos + 16 * n <= b.len(),
    ensures
        points_body(points_at(b, pos, n)) == b.subrange(pos, pos + 16 * n),
    decreases n,
{
    if n == 0 {
        assert(b.subrange(pos, pos) =~= Seq::<u8>::empty());
    } else {
        let m = (n - 1) as nat;
        lemma_points_body_sound(b, pos, m);
        assert(points_at(b, pos, n).drop_last() =~= points_at(b, pos, m));
        lemma_vector2d_sound(b, pos + 16 * m);
        assert(b.subrange(pos, pos + 16 * m) + b.subrange(pos + 16 * m, pos + 16 * n)
            =~= b.subrange(pos, pos + 16 * n));
    }
}

proof fn lemma_points_parse_wire(s: Seq<Vector2D>, b: Seq<u8>, pos: int)
    requires
        s.len() <= u64::MAX,
        0 <= pos,
        pos + points_wire(s).len() <= b.len(),
        b.subrange(pos, pos + points_wire(s).len()) == points_wire(s),
    ensures
        points_parse(b, pos) == Ok::<(Seq<Vector2D>, int), DecodeError>(
            (s, pos + points_wire(s).len()),
        ),
{
    lemma_points_body(s);
    let w = points_wire(s);
    let e = pos + w.len();
    assert(b.subrange(pos, pos + 8) =~= b.subrange(pos, e).subrange(0, 8));
    assert(w.subrange(0, 8) =~= u64_le(s.len() as u64));
    lemma_u64_read_write(s.len() as u64, b, pos);
    let r = points_at(b, pos + 8, s.len());
    assert forall|i: int| 0 <= i < s.len() implies r[i] == s[i] by {
        let q = pos + 8 + 16 * i;
        assert(b.subrange(q, q + 16) =~= b.subrange(pos, e).subrange(8 + 16 * i, 8 + 16 * i + 16));
        assert(w.subrange(8 + 16 * i, 8 + 16 * i + 16) =~= points_body(s).subrange(
            16 * i,
            16 * i + 16,
        ));
        lemma_vector2d_read(s[i], b, q);
    }
    assert(r =~= s);
}

proof fn lemma_points_parse_sound(b: Seq<u8>, pos: int)
    requires
        0 <= pos <= b.len(),
        points_parse(b, pos) is Ok,
    ensures
        ({
            let (m, p) = points_parse(b, pos)->Ok_0;
            &&& pos <= p <= b.len()
            &&& b.subrange(pos, p) == points_wire(m)
            &&& m.len() <= u64::MAX
        }),
{
    let n = u64_at(b, pos);
    lemma_u64_write_read(b, pos);
    lemma_points_body_sound(b, pos + 8, n as nat);
    let e = pos + 8 + 16 * n;
    assert(b.subrange(pos, pos + 8) + b.subrange(pos + 8, e) =~= b.subrange(pos, e));
}

fn write_points(v: &Vec<Vector2D>, out: &mut Vec<u8>)
    ensures
        final(out)@ == old(out)@ + points_wire(v@),
        v@.len() <= u64::MAX,
{
    let n = v.len();
    push_u64(out, n as u64);
    let ghost start = out@;
    let mut i: usize = 0;
    while i < n
        invariant
            n == v@.len(),
            i <= n,
            out@ == start + points_body(v@.subrange(0, i as int)),
        decreases n - i,
    {
        let p = v[i];
        p.write_bytes(out);
        proof {
            assert(v@.subrange(0, i + 1).drop_last() =~= v@.subrange(0, i as int));
            assert(out@ =~= start + points_body(v@.subrange(0, i + 1)));
        }
        i = i + 1;
    }
    assert(v@.subrange(0, n as int) =~= v@);
    assert(final(out)@ =~= old(out)@ + points_wire(v@));
}

fn read_points(b: &[u8], pos: usize) -> (r: Result<(Vec<Vector2D>, usize), DecodeError>)
    requires
        pos <= b@.len(),
    ensures
        match r {
            Ok((v, p)) => points_parse(b@, pos as int) == Ok::<(Seq<Vector2D>, int), DecodeError>(
                (v@, p as int),
            ),
            Err(e) => points_parse(b@, pos as int) == Err::<(Seq<Vector2D>, int), DecodeError>(e),
        },
{
    if b.len() - pos < 8 {
        return Err(DecodeError::UnexpectedEnd);
    }
    let n = read_u64(b, pos);
    let avail = b.len() - pos - 8;
    if (avail as u128) < (n as u128) * 16 {
        return Err(DecodeError::UnexpectedEnd);
    }
    let start = pos + 8;
    let mut v: Vec<Vector2D> = Vec::new();
    let mut i: u64 = 0;
    while i < n
        invariant
            start == pos + 8,
            n == u64_at(b@, pos as int),
            start + 16 * n <= b@.len(),
            b@.len() == b.len(),
            i <= n,
            v@ =~= points_at(b@, start as int, i as nat),
        decreases n - i,
    {
        let q = start + 16 * (i as usize);
        let p = read_vector2d(b, q);
        v.push(p);
        i = i + 1;
    }
    Ok((v, start + 16 * (n as usize)))
}

impl Binary for Points2D {
    open spec fn valid(m: Seq<Vector2D>) -> bool {
        m.len() <= u64::MAX
    }

    open spec fn wire(m: Seq<Vector2D>) -> Seq<u8> {
        points_wire(m)
    }

    open spec fn parse(b: Seq<u8>, pos: int) -> Result<(Seq<Vector2D>, int), DecodeError> {
        points_parse(b, pos)
    }

    proof fn lemma_parse_wire(m: Seq<Vector2D>, b: Seq<u8>, pos: int) {
        lemma_points_parse_wire(m, b, pos);
    }

    proof fn lemma_parse_sound(b: Seq<u8>, pos: int) {
        lemma_points_parse_sound(b, pos);
    }

    fn write_bytes(&self, out: &mut Vec<u8>) {
        write_points(&self.0, out);
    }

    fn read_bytes(b: &[u8], pos: usize) -> (r: Result<(Points2D, usize), DecodeError>) {
        match read_points(b, pos) {
            Ok((v, p)) => Ok((Points2D(v), p)),
            Err(e) => Err(e),
        }
    }
}

impl Binary for Polygon2D {
    open spec fn valid(m: Seq<Vector2D>) -> bool {
        m.len() <= u64::MAX
    }

    open spec fn wire(m: Seq<Vector2D>) -> Seq<u8> {
        points_wire(m)
    }

    open spec fn parse(b: Seq<u8>, pos: int) -> Result<(Seq<Vector2D>, int), DecodeError> {
        points_parse(b, pos)
    }

    proof fn lemma_parse_wire(m: Seq<Vector2D>, b: Seq<u8>, pos: int) {
        lemma_points_parse_wire(m, b, pos);
    }

    proof fn lemma_parse_sound(b: Seq<u8>, pos: int) {
        lemma_points_parse_sound(b, pos);
    }

    fn write_bytes(&self, out: &mut Vec<u8>) {
        write_points(&self.points.0, out);
    }

    fn read_bytes(b: &[u8], pos: usize) -> (r: Result<(Polygon2D, usize), DecodeError>) {
        match read_points(b, pos) {
            Ok((v, p)) => Ok((Polygon2D { points: Points2D(v) }, p)),
            Err(e) => Err(e),
        }
    }
}

// ---- prism and shapes ----

pub open spec fn prism_wire(m: PrismModel) -> Seq<u8> {
    points_wire(m.base) + u64_le(m.height)
}

pub open spec fn prism_parse(b: Seq<u8>, pos: int) -> Result<(PrismModel, int), DecodeError> {
    match points_parse(b, pos) {
        Ok((s, p)) => if p + 8 > b.len() {
            Err(DecodeError::UnexpectedEnd)
        } else {
            Ok((PrismModel { base: s, height: u64_at(b, p) }, p + 8))
        },
        Err(e) => Err(e),
    }
}

proof fn lemma_prism_parse_wire(m: PrismModel, b: Seq<u8>, pos: int)
    requires
        m.base.len() <= u64::MAX,
        0 <= pos,
        pos + prism_wire(m).len() <= b.len(),
        b.subrange(pos, pos + prism_wire(m).len()) == prism_wire(m),
    ensures
        prism_parse(b, pos) == Ok::<(PrismModel, int), DecodeError>(
            (m, pos + prism_wire(m).len()),
        ),
{
    let w = prism_wire(m);
    let e = pos + w.len();
    let k = points_wire(m.base).len();
    assert(b.subrange(pos, pos + k) =~= b.subrange(pos, e).subrange(0, k as int));
    assert(w.subrange(0, k as int) =~= points_wire(m.base));
    lemma_points_parse_wire(m.base, b, pos);
    assert(b.subrange(pos + k, e) =~= b.subrange(pos, e).subrange(k as int, w.len() as int));
    assert(w.subrange(k as int, w.len() as int) =~= u64_le(m.height));
    lemma_u64_read_write(m.height, b, pos + k);
}

proof fn lemma_prism_parse_sound(b: Seq<u8>, pos: int)
    requires
        0 <= pos <= b.len(),
        prism_parse(b, pos) is Ok,
    ensures
        ({
            let (m, p) = prism_parse(b, pos)->Ok_0;
            &&& pos <= p <= b.len()
            &&& b.subrange(pos, p) == prism_wire(m)
            &&& m.base.len() <= u64::MAX
        }),
{
    lemma_points_parse_sound(b, pos);
    let (s, p) = points_parse(b, pos)->Ok_0;
    lemma_u64_write_read(b, p);
    assert(b.subrange(pos, p) + b.subrange(p, p + 8) =~= b.subrange(pos, p + 8));
}

fn write_prism(bh: &BaseHeight, out: &mut Vec<u8>)
    ensures
        final(out)@ == old(out)@ + prism_wire(bh@),
        bh@.base.len() <= u64::MAX,
{
    write_points(&bh.base.points.0, out);
    push_u64(out, bh.height);
    assert(final(out)@ =~= old(out)@ + prism_wire(bh@));
}

fn read_prism(b: &[u8], pos: usize) -> (r: Result<(BaseHeight, usize), DecodeError>)
    requires
        pos <= b@.len(),
    ensures
        lift::<BaseHeight>(r) == prism_parse(b@, pos as int),
{
    match read_points(b, pos) {
        Ok((v, p)) => {
            if b.len() - p < 8 {
                Err(DecodeError::UnexpectedEnd)
            } else {
                let height = read_u64(b, p);
                Ok((BaseHeight { base: Polygon2D { points: Points2D(v) }, height }, p + 8))
            }
        },
        Err(e) => Err(e),
    }
}

impl Binary for BaseHeight {
    open spec fn valid(m: PrismModel) -> bool {
        m.base.len() <= u64::MAX
    }

    open spec fn wire(m: PrismModel) -> Seq<u8> {
        prism_wire(m)
    }

    open spec fn parse(b: Seq<u8>, pos: int) -> Result<(PrismModel, int), DecodeError> {
        prism_parse(b, pos)
    }

    proof fn lemma_parse_wire(m: PrismModel, b: Seq<u8>, pos: int) {
        lemma_prism_parse_wire(m, b, pos);
    }

    proof fn lemma_parse_sound(b: Seq<u8>, pos: int) {
        lemma_prism_parse_sound(b, pos);
    }

    fn write_bytes(&self, out: &mut Vec<u8>) {
        write_prism(self, out);
    }

    fn read_bytes(b: &[u8], pos: usize) -> (r: Result<(BaseHeight, usize), DecodeError>) {
        read_prism(b, pos)
    }
}

/// The discriminant of the prism variant.
pub const BASE_HEIGHT_TAG: u8 = 0;

pub open spec fn solid_valid(m: SolidModel) -> bool {
    match m {
        SolidModel::BaseHeight(p) => p.base.len() <= u64::MAX,
    }
}

pub open spec fn solid_wire(m: SolidModel) -> Seq<u8> {
    match m {
        SolidModel::BaseHeight(p) => seq![BASE_HEIGHT_TAG] + prism_wire(p),
    }
}

pub open spec fn solid_parse(b: Seq<u8>, pos: int) -> Result<(SolidModel, int), DecodeError> {
    if pos < 0 || pos + 1 > b.len() {
        Err(DecodeError::UnexpectedEnd)
    } else if b[pos] == BASE_HEIGHT_TAG {
        match prism_parse(b, pos + 1) {
            Ok((p, e)) => Ok((SolidModel::BaseHeight(p), e)),
            Err(e) => Err(e),
        }
    } else {
        Err(DecodeError::UnknownVariant(b[pos] as u32))
    }
}

proof fn lemma_solid_parse_wire(m: SolidModel, b: Seq<u8>, pos: int)
    requires
        solid_valid(m),
        0 <= pos,
        pos + solid_wire(m).len() <= b.len(),
        b.subrange(pos, pos + solid_wire(m).len()) == solid_wire(m),
    ensures
        solid_parse(b, pos) == Ok::<(SolidModel, int), DecodeError>(
            (m, pos + solid_wire(m).len()),
        ),
{
    match m {
        SolidModel::BaseHeight(p) => {
            let w = solid_wire(m);
            let e = pos + w.len();
            assert(b[pos] == b.subrange(pos, e)[0]);
            assert(b.subrange(pos + 1, e) =~= b.subrange(pos, e).subrange(1, w.len() as int));
            assert(w.subrange(1, w.len() as int) =~= prism_wire(p));
            lemma_prism_parse_wire(p, b, pos + 1);
        },
    }
}

proof fn lemma_solid_parse_sound(b: Seq<u8>, pos: int)
    requires
        0 <= pos <= b.len(),
        solid_parse(b, pos) is Ok,
    ensures
        ({
            let (m, p) = solid_parse(b, pos)->Ok_0;
            &&& pos <= p <= b.len()
            &&& b.subrange(pos, p) == solid_wire(m)
            &&& solid_valid(m)
        }),
{
    lemma_prism_parse_sound(b, pos + 1);
    let (p, e) = prism_parse(b, pos + 1)->Ok_0;
    assert(b.subrange(pos, e) =~= seq![b[pos]] + b.subrange(pos + 1, e));
}

fn write_solid(s: &Shape3D, out: &mut Vec<u8>)
    ensures
        final(out)@ == old(out)@ + solid_wire(s@),
        solid_valid(s@),
{
    match s {
        Shape3D::BaseHeight(bh) => {
            out.push(BASE_HEIGHT_TAG);
            write_prism(bh, out);
        },
    }
    assert(final(out)@ =~= old(out)@ + solid_wire(s@));
}

fn read_solid(b: &[u8], pos: usize) -> (r: Result<(Shape3D, usize), DecodeError>)
    requires
        pos <= b@.len(),
    ensures
        lift::<Shape3D>(r) == solid_parse(b@, pos as int),
{
    if b.len() - pos < 1 {
        return Err(DecodeError::UnexpectedEnd);
    }
    let tag = b[pos];
    if tag == BASE_HEIGHT_TAG {
        match read_prism(b, pos + 1) {
            Ok((bh, p)) => Ok((Shape3D::BaseHeight(bh), p)),
            Err(e) => Err(e),
        }
    } else {
        Err(DecodeError::UnknownVariant(tag as u32))
    }
}

impl Binary for Shape3D {
    open spec fn valid(m: SolidModel) -> bool {
        solid_valid(m)
    }

    open spec fn wire(m: SolidModel) -> Seq<u8> {
        solid_wire(m)
    }

    open spec fn parse(b: Seq<u8>, pos: int) -> Result<(SolidModel, int), DecodeError> {
        solid_parse(b, pos)
    }

    proof fn lemma_parse_wire(m: SolidModel, b: Seq<u8>, pos: int) {
        lemma_solid_parse_wire(m, b, pos);
    }

    proof fn lemma_parse_sound(b: Seq<u8>, pos: int) {
        lemma_solid_parse_sound(b, pos);
    }

    fn write_bytes(&self, out: &mut Vec<u8>) {
        write_solid(self, out);
    }

    fn read_bytes(b: &[u8], pos: usize) -> (r: Result<(Shape3D, usize), DecodeError>) {
        read_solid(b, pos)
    }
}

impl Binary for PyShape3D {
    open spec fn valid(m: SolidModel) -> bool {
        solid_valid(m)
    }

    open spec fn wire(m: SolidModel) -> Seq<u8> {
        solid_wire(m)
    }

    open spec fn parse(b: Seq<u8>, pos: int) -> Result<(SolidModel, int), DecodeError> {
        solid_parse(b, pos)
    }

    proof fn lemma_parse_wire(m: SolidModel, b: Seq<u8>, pos: int) {
        lemma_solid_parse_wire(m, b, pos);
    }

    proof fn lemma_parse_sound(b: Seq<u8>, pos: int) {
        lemma_solid_parse_sound(b, pos);
    }

    fn write_bytes(&self, out: &mut Vec<u8>) {
        write_solid(&self.0, out);
    }

    fn read_bytes(b: &[u8], pos: usize) -> (r: Result<(PyShape3D, usize), DecodeError>) {
        match read_solid(b, pos) {
            Ok((s, p)) => Ok((PyShape3D(s), p)),
            Err(e) => Err(e),
        }
    }
}

// ---- hashing ----

pub const FNV_OFFSET: u64 = 0xcbf2_9ce4_8422_2325;

pub const FNV_PRIME: u64 = 0x0100_0000_01b3;

/// The 64-bit FNV-1a hash of a byte string.
pub open spec fn fnv1a(s: Seq<u8>) -> u64
    decreases s.len(),
{
    if s.len() == 0 {
        FNV_OFFSET
    } else {
        (fnv1a(s.drop_last()) ^ (s.last() as u64)).wrapping_mul(FNV_PRIME)
    }
}

/// A hash of a value: the FNV-1a hash of its binary encoding, so equal values
/// hash alike in every process.
pub fn hash_value<T: Binary>(v: &T) -> (r: u64)
    ensures
        r == fnv1a(T::wire(v@)),
{
    let b = to_bytes(v);
    let mut h: u64 = FNV_OFFSET;
    let mut i: usize = 0;
    while i < b.len()
        invariant
            i <= b@.len(),
            h == fnv1a(b@.subrange(0, i as int)),
        decreases b@.len() - i,
    {
        proof {
            assert(b@.subrange(0, i + 1).drop_last() =~= b@.subrange(0, i as int));
        }
        h = (h ^ (b[i] as u64)).wrapping_mul(FNV_PRIME);
        i = i + 1;
    }
    assert(b@.subrange(0, b@.len() as int) =~= b@);
    h
}

} // verus!
