//! Writing field elements, points, ciphertexts and secrets as values on the
//! wire, and reading them back.

use crate::algebra::{fq_modulus, fr_modulus};
use crate::curve::{g1_points, g2_points, G1Affine, G1Point, G2Affine, G2Point};
use crate::field::{Fq, Fq2, Fq2Value, Fr};
use crate::hex::{
    ascii_lower_text, hex_bytes, hex_decode, lemma_hex_bytes_value, lemma_hex_text, to_lowercase,
};
use crate::json::{json_views, member_views, Json, JsonView, Member, MemberView};
use crate::structs::{CiphertextView, PVSSCiphertext, PVSSSecrets, SecretsView};
use crate::wire::{
    ciphertext_finite, ciphertext_json, ciphertext_writable, field_json, fq2_json, fq2_reader,
    fq2_reduced, fq_reader, fr_reader, g1_json, g1_list_json, g1_reader, g1_writable, g2_json,
    g2_list_json, g2_reader, g2_writable, hex_part, lemma_ciphertext_round_trip,
    lemma_field_round_trip, lemma_fq2_round_trip, lemma_g1_round_trip, lemma_g2_round_trip,
    lemma_scan_ciphertext_fails, lemma_scan_list_fails, lemma_scan_pair_fails,
    lemma_secrets_round_trip, parse_ciphertext, parse_field, parse_fq2, parse_g1, parse_g2,
    parse_list, parse_secrets, scan_ciphertext, scan_list, scan_pair, secrets_json, CiphertextParts,
    DeserializeError, Field,
};
use vstd::prelude::*;
use vstd::std_specs::convert::FromSpecImpl;
use vstd::string::{StrSliceExecFns, StringExecFns, StringExecFnsIsAscii};
use vstd::utf8::is_ascii_chars;

verus! {

/// An element of the scalar field, to go over the wire.
#[derive(Clone, Copy, Debug, PartialEq, Eq, Structural)]
pub struct FrSerializable(pub Fr);

/// An element of the base field, to go over the wire.
#[derive(Clone, Copy, Debug, PartialEq, Eq, Structural)]
pub struct FqSerializable(pub Fq);

/// An element of the quadratic extension, to go over the wire.
#[derive(Clone, Copy, Debug, PartialEq, Eq, Structural)]
pub struct Fq2Serializable(pub Fq2);

/// A point of the first group, to go over the wire.
#[derive(Clone, Copy, Debug, PartialEq, Eq, Structural)]
pub struct G1AffineSerializable(pub G1Affine);

/// A point of the second group, to go over the wire.
#[derive(Clone, Copy, Debug, PartialEq, Eq, Structural)]
pub struct G2AffineSerializable(pub G2Affine);

impl From<Fr> for FrSerializable {
    fn from(item: Fr) -> (r: FrSerializable) {
        FrSerializable(item)
    }
}

impl FromSpecImpl<Fr> for FrSerializable {
    open spec fn obeys_from_spec() -> bool {
        true
    }

    open spec fn from_spec(item: Fr) -> FrSerializable {
        FrSerializable(item)
    }
}

impl From<FrSerializable> for Fr {
    fn from(item: FrSerializable) -> (r: Fr) {
        item.0
    }
}

impl FromSpecImpl<FrSerializable> for Fr {
    open spec fn obeys_from_spec() -> bool {
        true
    }

    open spec fn from_spec(item: FrSerializable) -> Fr {
        item.0
    }
}

impl From<Fq> for FqSerializable {
    fn from(item: Fq) -> (r: FqSerializable) {
        FqSerializable(item)
    }
}

impl FromSpecImpl<Fq> for FqSerializable {
    open spec fn obeys_from_spec() -> bool {
        true
    }

    open spec fn from_spec(item: Fq) -> FqSerializable {
        FqSerializable(item)
    }
}

impl From<FqSerializable> for Fq {
    fn from(item: FqSerializable) -> (r: Fq) {
        item.0
    }
}

impl FromSpecImpl<FqSerializable> for Fq {
    open spec fn obeys_from_spec() -> bool {
        true
    }

    open spec fn from_spec(item: FqSerializable) -> Fq {
        item.0
    }
}

impl From<Fq2> for Fq2Serializable {
    fn from(item: Fq2) -> (r: Fq2Serializable) {
        Fq2Serializable(item)
    }
}

impl FromSpecImpl<Fq2> for Fq2Serializable {
    open spec fn obeys_from_spec() -> bool {
        true
    }

    open spec fn from_spec(item: Fq2) -> Fq2Serializable {
        Fq2Serializable(item)
    }
}

impl From<Fq2Serializable> for Fq2 {
    fn from(item: Fq2Serializable) -> (r: Fq2) {
        item.0
    }
}

impl FromSpecImpl<Fq2Serializable> for Fq2 {
    open spec fn obeys_from_spec() -> bool {
        true
    }

    open spec fn from_spec(item: Fq2Serializable) -> Fq2 {
        item.0
    }
}

impl From<G1Affine> for G1AffineSerializable {
    fn from(item: G1Affine) -> (r: G1AffineSerializable) {
        G1AffineSerializable(item)
    }
}

impl FromSpecImpl<G1Affine> for G1AffineSerializable {
    open spec fn obeys_from_spec() -> bool {
        true
    }

    open spec fn from_spec(item: G1Affine) -> G1AffineSerializable {
        G1AffineSerializable(item)
    }
}

impl From<G1AffineSerializable> for G1Affine {
    fn from(item: G1AffineSerializable) -> (r: G1Affine) {
        item.0
    }
}

impl FromSpecImpl<G1AffineSerializable> for G1Affine {
    open spec fn obeys_from_spec() -> bool {
        true
    }

    open spec fn from_spec(item: G1AffineSerializable) -> G1Affine {
        item.0
    }
}

impl From<G2Affine> for G2AffineSerializable {
    fn from(item: G2Affine) -> (r: G2AffineSerializable) {
        G2AffineSerializable(item)
    }
}

impl FromSpecImpl<G2Affine> for G2AffineSerializable {
    open spec fn obeys_from_spec() -> bool {
        true
    }

    open spec fn from_spec(item: G2Affine) -> G2AffineSerializable {
        G2AffineSerializable(item)
    }
}

impl From<G2AffineSerializable> for G2Affine {
    fn from(item: G2AffineSerializable) -> (r: G2Affine) {
        item.0
    }
}

impl FromSpecImpl<G2AffineSerializable> for G2Affine {
    open spec fn obeys_from_spec() -> bool {
        true
    }

    open spec fn from_spec(item: G2AffineSerializable) -> G2Affine {
        item.0
    }
}

/// What an optional value holds.
pub open spec fn opt_view<T: View>(x: Option<T>) -> Option<T::V> {
    match x {
        Some(v) => Some(v@),
        None => None,
    }
}

/// `0x` and then the text in lower case.
fn prefixed_lowercase(digits: &String) -> (r: String)
    requires
        is_ascii_chars(digits@),
    ensures
        r@ == "0x"@ + ascii_lower_text(digits@),
{
    let lower = to_lowercase(digits.as_str());
    String::from_str("0x").concat(lower.as_str())
}

/// The digits of a text that is `0x` and then hexadecimal digits, and the
/// bytes that they hold.
fn read_hex(text: &String) -> (r: Option<(String, Vec<u8>)>)
    ensures
        match r {
            Some((digits, bytes)) => hex_part(text@) == Some(digits@) && bytes@ == hex_bytes(
                digits@,
            ),
            None => hex_part(text@) is None,
        },
{
    let s = text.as_str();
    let n = s.unicode_len();
    if n <= 2 {
        return None;
    }
    if s.get_char(0) != '0' || s.get_char(1) != 'x' {
        return None;
    }
    let digits = s.substring_char(2, n);
    assert(digits@ =~= text@.skip(2));
    match hex_decode(digits) {
        Some(bytes) => Some((String::from_str(digits), bytes)),
        None => None,
    }
}

impl FrSerializable {
    /// The element as a string on the wire, from which `deserialize` reads
    /// the element back.
    pub fn serialize(&self) -> (r: Json)
        ensures
            r@ == field_json(self.0@),
            parse_field(r@, fr_modulus()) == Ok::<nat, DeserializeError>(self.0@),
    {
        proof {
            use_type_invariant(&self.0);
            self.0.lemma_reduced();
            lemma_field_round_trip(self.0@, fr_modulus());
            lemma_hex_text(self.0@, 64, true);
        }
        Json::string(prefixed_lowercase(&self.0.repr_text()))
    }

    /// Reads an element from the wire. The string must be what `serialize`
    /// writes for the element.
    pub fn deserialize(value: &Json) -> (r: Result<FrSerializable, DeserializeError>)
        ensures
            match r {
                Ok(x) => parse_field(value@, fr_modulus()) == Ok::<nat, DeserializeError>(x.0@),
                Err(e) => parse_field(value@, fr_modulus()) == Err::<nat, DeserializeError>(e),
            },
    {
        let text = match value.as_string() {
            Some(text) => text,
            None => {
                return Err(DeserializeError::InvalidType);
            },
        };
        match read_hex(text) {
            None => Err(DeserializeError::InvalidHexString),
            Some((digits, bytes)) => {
                let x = Fr::from_be_bytes_mod_order(&bytes);
                proof {
                    lemma_hex_bytes_value(digits@);
                    lemma_hex_text(x@, 64, true);
                }
                let written = to_lowercase(x.repr_text().as_str());
                if written == digits {
                    Ok(FrSerializable(x))
                } else {
                    Err(DeserializeError::HexValueTooLarge)
                }
            },
        }
    }
}

impl FqSerializable {
    /// The element as a string on the wire, from which `deserialize` reads
    /// the element back.
    pub fn serialize(&self) -> (r: Json)
        ensures
            r@ == field_json(self.0@),
            parse_field(r@, fq_modulus()) == Ok::<nat, DeserializeError>(self.0@),
            self.0@ < fq_modulus(),
    {
        proof {
            use_type_invariant(&self.0);
            self.0.lemma_reduced();
            lemma_field_round_trip(self.0@, fq_modulus());
            lemma_hex_text(self.0@, 64, true);
        }
        Json::string(prefixed_lowercase(&self.0.repr_text()))
    }

    /// Reads an element from the wire. The string must be what `serialize`
    /// writes for the element.
    pub fn deserialize(value: &Json) -> (r: Result<FqSerializable, DeserializeError>)
        ensures
            match r {
                Ok(x) => parse_field(value@, fq_modulus()) == Ok::<nat, DeserializeError>(x.0@),
                Err(e) => parse_field(value@, fq_modulus()) == Err::<nat, DeserializeError>(e),
            },
    {
        let text = match value.as_string() {
            Some(text) => text,
            None => {
                return Err(DeserializeError::InvalidType);
            },
        };
        match read_hex(text) {
            None => Err(DeserializeError::InvalidHexString),
            Some((digits, bytes)) => {
                let x = Fq::from_be_bytes_mod_order(&bytes);
                proof {
                    lemma_hex_bytes_value(digits@);
                    lemma_hex_text(x@, 64, true);
                }
                let written = to_lowercase(x.repr_text().as_str());
                if written == digits {
                    Ok(FqSerializable(x))
                } else {
                    Err(DeserializeError::HexValueTooLarge)
                }
            },
        }
    }
}

impl Fq2Serializable {
    /// The element as an array on the wire: `c1`, then `c0`. From it
    /// `deserialize` reads the element back.
    pub fn serialize(&self) -> (r: Json)
        ensures
            r@ == fq2_json(self.0@),
            parse_fq2(r@) == Ok::<Fq2Value, DeserializeError>(self.0@),
            fq2_reduced(self.0@),
    {
        let mut items: Vec<Json> = Vec::new();
        items.push(FqSerializable(self.0.c1).serialize());
        items.push(FqSerializable(self.0.c0).serialize());
        assert(json_views(items@) =~= seq![field_json(self.0.c1@), field_json(self.0.c0@)]);
        let r = Json::array(items);
        proof {
            lemma_fq2_round_trip(self.0@);
        }
        r
    }

    /// Reads an element from the wire: an array of `c1` and `c0`.
    pub fn deserialize(value: &Json) -> (r: Result<Fq2Serializable, DeserializeError>)
        ensures
            match r {
                Ok(x) => parse_fq2(value@) == Ok::<Fq2Value, DeserializeError>(x.0@),
                Err(e) => parse_fq2(value@) == Err::<Fq2Value, DeserializeError>(e),
            },
    {
        let items = match value.as_array() {
            Some(items) => items,
            None => {
                return Err(DeserializeError::InvalidType);
            },
        };
        if items.len() == 0 {
            return Err(DeserializeError::InvalidLength(0));
        }
        assert(json_views(items@)[0] == items@[0]@);
        let c1 = match FqSerializable::deserialize(&items[0]) {
            Ok(c1) => c1,
            Err(e) => {
                return Err(e);
            },
        };
        if items.len() == 1 {
            return Err(DeserializeError::InvalidLength(1));
        }
        assert(json_views(items@)[1] == items@[1]@);
        let c0 = match FqSerializable::deserialize(&items[1]) {
            Ok(c0) => c0,
            Err(e) => {
                return Err(e);
            },
        };
        if items.len() > 2 {
            return Err(DeserializeError::InvalidLength(items.len()));
        }
        Ok(Fq2Serializable(Fq2 { c0: c0.0, c1: c1.0 }))
    }
}

impl G1AffineSerializable {
    /// The point as an object on the wire. The flag of the point at infinity
    /// is not written: from what is written `deserialize` reads the point
    /// back, unless it is the point at infinity.
    pub fn serialize(&self) -> (r: Json)
        ensures
            r@ == g1_json(self.0@),
            !self.0.infinity ==> g1_writable(self.0@) && parse_g1(r@) == Ok::<G1Point, DeserializeError>(self.0@),
    {
        let mut members: Vec<Member> = Vec::new();
        members.push(Member::new(String::from_str("x"), FqSerializable(self.0.x).serialize()));
        members.push(Member::new(String::from_str("y"), FqSerializable(self.0.y).serialize()));
        assert(member_views(members@) =~= seq![
            MemberView { name: "x"@, value: field_json(self.0.x@) },
            MemberView { name: "y"@, value: field_json(self.0.y@) },
        ]);
        let r = Json::object(members);
        proof {
            if !self.0.infinity {
                lemma_g1_round_trip(self.0@);
            }
        }
        r
    }

    /// Reads a point from the wire: an object of `x` and `y`, in either
    /// order. The point that is read is never the point at infinity.
    pub fn deserialize(value: &Json) -> (r: Result<G1AffineSerializable, DeserializeError>)
        ensures
            match r {
                Ok(p) => parse_g1(value@) == Ok::<G1Point, DeserializeError>(p.0@),
                Err(e) => parse_g1(value@) == Err::<G1Point, DeserializeError>(e),
            },
    {
        let members = match value.as_object() {
            Some(members) => members,
            None => {
                return Err(DeserializeError::InvalidType);
            },
        };
        let ghost views = member_views(members@);
        let name_x = String::from_str("x");
        let name_y = String::from_str("y");
        let mut x: Option<Fq> = None;
        let mut y: Option<Fq> = None;
        let mut k: usize = 0;
        while k < members.len()
            invariant
                k <= members@.len(),
                views == member_views(members@),
                value@ == JsonView::Object(views),
                name_x@ == "x"@,
                name_y@ == "y"@,
                scan_pair(views, k as nat, Field::X, fq_reader(), Field::Y, fq_reader()) == Ok::<
                    (Option<nat>, Option<nat>),
                    DeserializeError,
                >((opt_view(x), opt_view(y))),
            decreases members@.len() - k,
        {
            let member = &members[k];
            assert(views[k as int] == member@);
            proof {
                if scan_pair(views, (k + 1) as nat, Field::X, fq_reader(), Field::Y, fq_reader()) is Err {
                    lemma_scan_pair_fails(
                        views,
                        (k + 1) as nat,
                        views.len(),
                        Field::X,
                        fq_reader(),
                        Field::Y,
                        fq_reader(),
                    );
                }
            }
            if member.name == name_x {
                if x.is_some() {
                    return Err(DeserializeError::DuplicateField(Field::X));
                }
                match FqSerializable::deserialize(&member.value) {
                    Ok(v) => {
                        x = Some(v.0);
                    },
                    Err(e) => {
                        return Err(e);
                    },
                }
            } else if member.name == name_y {
                if y.is_some() {
                    return Err(DeserializeError::DuplicateField(Field::Y));
                }
                match FqSerializable::deserialize(&member.value) {
                    Ok(v) => {
                        y = Some(v.0);
                    },
                    Err(e) => {
                        return Err(e);
                    },
                }
            } else {
                return Err(DeserializeError::UnknownField);
            }
            k = k + 1;
        }
        match (x, y) {
            (Some(x), Some(y)) => Ok(G1AffineSerializable(G1Affine { x, y, infinity: false })),
            (None, _) => Err(DeserializeError::MissingField(Field::X)),
            (_, None) => Err(DeserializeError::MissingField(Field::Y)),
        }
    }
}

impl G2AffineSerializable {
    /// The point as an object on the wire. The flag of the point at infinity
    /// is not written: from what is written `deserialize` reads the point
    /// back, unless it is the point at infinity.
    pub fn serialize(&self) -> (r: Json)
        ensures
            r@ == g2_json(self.0@),
            !self.0.infinity ==> g2_writable(self.0@) && parse_g2(r@) == Ok::<G2Point, DeserializeError>(self.0@),
    {
        let mut members: Vec<Member> = Vec::new();
        members.push(Member::new(String::from_str("x"), Fq2Serializable(self.0.x).serialize()));
        members.push(Member::new(String::from_str("y"), Fq2Serializable(self.0.y).serialize()));
        assert(member_views(members@) =~= seq![
            MemberView { name: "x"@, value: fq2_json(self.0.x@) },
            MemberView { name: "y"@, value: fq2_json(self.0.y@) },
        ]);
        let r = Json::object(members);
        proof {
            if !self.0.infinity {
                lemma_g2_round_trip(self.0@);
            }
        }
        r
    }

    /// Reads a point from the wire: an object of `x` and `y`, in either
    /// order. The point that is read is never the point at infinity.
    pub fn deserialize(value: &Json) -> (r: Result<G2AffineSerializable, DeserializeError>)
        ensures
            match r {
                Ok(p) => parse_g2(value@) == Ok::<G2Point, DeserializeError>(p.0@),
                Err(e) => parse_g2(value@) == Err::<G2Point, DeserializeError>(e),
            },
    {
        let members = match value.as_object() {
            Some(members) => members,
            None => {
                return Err(DeserializeError::InvalidType);
            },
        };
        let ghost views = member_views(members@);
        let name_x = String::from_str("x");
        let name_y = String::from_str("y");
        let mut x: Option<Fq2> = None;
        let mut y: Option<Fq2> = None;
        let mut k: usize = 0;
        while k < members.len()
            invariant
                k <= members@.len(),
                views == member_views(members@),
                value@ == JsonView::Object(views),
                name_x@ == "x"@,
                name_y@ == "y"@,
                scan_pair(views, k as nat, Field::X, fq2_reader(), Field::Y, fq2_reader()) == Ok::<
                    (Option<Fq2Value>, Option<Fq2Value>),
                    DeserializeError,
                >((opt_view(x), opt_view(y))),
            decreases members@.len() - k,
        {
            let member = &members[k];
            assert(views[k as int] == member@);
            proof {
                if scan_pair(views, (k + 1) as nat, Field::X, fq2_reader(), Field::Y, fq2_reader()) is Err {
                    lemma_scan_pair_fails(
                        views,
                        (k + 1) as nat,
                        views.len(),
                        Field::X,
                        fq2_reader(),
                        Field::Y,
                        fq2_reader(),
                    );
                }
            }
            if member.name == name_x {
                if x.is_some() {
                    return Err(DeserializeError::DuplicateField(Field::X));
                }
                match Fq2Serializable::deserialize(&member.value) {
                    Ok(v) => {
                        x = Some(v.0);
                    },
                    Err(e) => {
                        return Err(e);
                    },
                }
            } else if member.name == name_y {
                if y.is_some() {
                    return Err(DeserializeError::DuplicateField(Field::Y));
                }
                match Fq2Serializable::deserialize(&member.value) {
                    Ok(v) => {
                        y = Some(v.0);
                    },
                    Err(e) => {
                        return Err(e);
                    },
                }
            } else {
                return Err(DeserializeError::UnknownField);
            }
            k = k + 1;
        }
        match (x, y) {
            (Some(x), Some(y)) => Ok(G2AffineSerializable(G2Affine { x, y, infinity: false })),
            (None, _) => Err(DeserializeError::MissingField(Field::X)),
            (_, None) => Err(DeserializeError::MissingField(Field::Y)),
        }
    }
}

/// Points of the first group as an array on the wire.
fn write_g1_list(points: &Vec<G1Affine>) -> (r: Json)
    ensures
        r@ == g1_list_json(g1_points(points@)),
        forall|j: int|
            0 <= j < points@.len() && !points@[j].infinity ==> g1_writable(#[trigger] g1_points(points@)[j]),
{
    let mut items: Vec<Json> = Vec::new();
    let mut k: usize = 0;
    while k < points.len()
        invariant
            k <= points@.len(),
            items@.len() == k,
            forall|j: int| 0 <= j < k ==> (#[trigger] items@[j])@ == g1_json(points@[j]@),
            forall|j: int|
                0 <= j < k && !points@[j].infinity ==> g1_writable(#[trigger] g1_points(points@)[j]),
        decreases points@.len() - k,
    {
        items.push(G1AffineSerializable(points[k]).serialize());
        k = k + 1;
    }
    assert(json_views(items@) =~= g1_points(points@).map_values(|p: G1Point| g1_json(p)));
    Json::array(items)
}

/// Reads an array of points of the first group from the wire.
fn read_g1_list(value: &Json) -> (r: Result<Vec<G1Affine>, DeserializeError>)
    ensures
        match r {
            Ok(points) => parse_list(value@, g1_reader()) == Ok::<Seq<G1Point>, DeserializeError>(
                g1_points(points@),
            ),
            Err(e) => parse_list(value@, g1_reader()) == Err::<Seq<G1Point>, DeserializeError>(e),
        },
{
    let items = match value.as_array() {
        Some(items) => items,
        None => {
            return Err(DeserializeError::InvalidType);
        },
    };
    let ghost views = json_views(items@);
    let mut points: Vec<G1Affine> = Vec::new();
    assert(g1_points(points@) =~= Seq::empty());
    let mut k: usize = 0;
    while k < items.len()
        invariant
            k <= items@.len(),
            views == json_views(items@),
            value@ == JsonView::Array(views),
            scan_list(views, k as nat, g1_reader()) == Ok::<Seq<G1Point>, DeserializeError>(
                g1_points(points@),
            ),
        decreases items@.len() - k,
    {
        assert(views[k as int] == items@[k as int]@);
        match G1AffineSerializable::deserialize(&items[k]) {
            Ok(p) => {
                let ghost before = g1_points(points@);
                points.push(p.0);
                assert(g1_points(points@) =~= before.push(p.0@));
            },
            Err(e) => {
                proof {
                    lemma_scan_list_fails(views, (k + 1) as nat, views.len(), g1_reader());
                }
                return Err(e);
            },
        }
        k = k + 1;
    }
    Ok(points)
}

/// Points of the second group as an array on the wire.
fn write_g2_list(points: &Vec<G2Affine>) -> (r: Json)
    ensures
        r@ == g2_list_json(g2_points(points@)),
        forall|j: int|
            0 <= j < points@.len() && !points@[j].infinity ==> g2_writable(#[trigger] g2_points(points@)[j]),
{
    let mut items: Vec<Json> = Vec::new();
    let mut k: usize = 0;
    while k < points.len()
        invariant
            k <= points@.len(),
            items@.len() == k,
            forall|j: int| 0 <= j < k ==> (#[trigger] items@[j])@ == g2_json(points@[j]@),
            forall|j: int|
                0 <= j < k && !points@[j].infinity ==> g2_writable(#[trigger] g2_points(points@)[j]),
        decreases points@.len() - k,
    {
        items.push(G2AffineSerializable(points[k]).serialize());
        k = k + 1;
    }
    assert(json_views(items@) =~= g2_points(points@).map_values(|p: G2Point| g2_json(p)));
    Json::array(items)
}

/// Reads an array of points of the second group from the wire.
fn read_g2_list(value: &Json) -> (r: Result<Vec<G2Affine>, DeserializeError>)
    ensures
        match r {
            Ok(points) => parse_list(value@, g2_reader()) == Ok::<Seq<G2Point>, DeserializeError>(
                g2_points(points@),
            ),
            Err(e) => parse_list(value@, g2_reader()) == Err::<Seq<G2Point>, DeserializeError>(e),
        },
{
    let items = match value.as_array() {
        Some(items) => items,
        None => {
            return Err(DeserializeError::InvalidType);
        },
    };
    let ghost views = json_views(items@);
    let mut points: Vec<G2Affine> = Vec::new();
    assert(g2_points(points@) =~= Seq::empty());
    let mut k: usize = 0;
    while k < items.len()
        invariant
            k <= items@.len(),
            views == json_views(items@),
            value@ == JsonView::Array(views),
            scan_list(views, k as nat, g2_reader()) == Ok::<Seq<G2Point>, DeserializeError>(
                g2_points(points@),
            ),
        decreases items@.len() - k,
    {
        assert(views[k as int] == items@[k as int]@);
        match G2AffineSerializable::deserialize(&items[k]) {
            Ok(p) => {
                let ghost before = g2_points(points@);
                points.push(p.0);
                assert(g2_points(points@) =~= before.push(p.0@));
            },
            Err(e) => {
                proof {
                    lemma_scan_list_fails(views, (k + 1) as nat, views.len(), g2_reader());
                }
                return Err(e);
            },
        }
        k = k + 1;
    }
    Ok(points)
}

/// Whether a name on the wire is the given name of ASCII in lower case, once
/// its own letters are taken in lower case.
fn is_name_in_any_case(name: &String, lower: &String) -> (r: bool)
    ensures
        r == (is_ascii_chars(name@) && ascii_lower_text(name@) == lower@),
{
    name.is_ascii() && to_lowercase(name.as_str()) == *lower
}

/// What each optional list of points holds.
pub open spec fn opt_g1_points(x: Option<Vec<G1Affine>>) -> Option<Seq<G1Point>> {
    match x {
        Some(v) => Some(g1_points(v@)),
        None => None,
    }
}

/// What each optional list of points holds.
pub open spec fn opt_g2_points(x: Option<Vec<G2Affine>>) -> Option<Seq<G2Point>> {
    match x {
        Some(v) => Some(g2_points(v@)),
        None => None,
    }
}

impl PVSSCiphertext {
    /// The ciphertext as an object on the wire, from which `deserialize` reads
    /// the ciphertext back unless it holds the point at infinity.
    pub fn serialize(&self) -> (r: Json)
        ensures
            r@ == ciphertext_json(self@),
            ciphertext_finite(self@) ==> ciphertext_writable(self@) && parse_ciphertext(r@) == Ok::<
                CiphertextView,
                DeserializeError,
            >(self@),
    {
        let mut members: Vec<Member> = Vec::new();
        members.push(Member::new(String::from_str("f_i"), write_g1_list(&self.f_i)));
        members.push(Member::new(String::from_str("a_i"), write_g1_list(&self.a_i)));
        members.push(Member::new(String::from_str("y_i"), write_g2_list(&self.y_i)));
        assert(member_views(members@) =~= seq![
            MemberView { name: "f_i"@, value: g1_list_json(self@.f_i) },
            MemberView { name: "a_i"@, value: g1_list_json(self@.a_i) },
            MemberView { name: "y_i"@, value: g2_list_json(self@.y_i) },
        ]);
        let r = Json::object(members);
        proof {
            if ciphertext_finite(self@) {
                lemma_ciphertext_round_trip(self@);
            }
        }
        r
    }

    /// Reads a ciphertext from the wire: an object of `f_i`, `a_i` and `y_i`,
    /// in any order and with their names in either case.
    pub fn deserialize(value: &Json) -> (r: Result<PVSSCiphertext, DeserializeError>)
        ensures
            match r {
                Ok(c) => parse_ciphertext(value@) == Ok::<CiphertextView, DeserializeError>(c@),
                Err(e) => parse_ciphertext(value@) == Err::<CiphertextView, DeserializeError>(e),
            },
    {
        let members = match value.as_object() {
            Some(members) => members,
            None => {
                return Err(DeserializeError::InvalidType);
            },
        };
        let ghost views = member_views(members@);
        let name_f = String::from_str("f_i");
        let name_a = String::from_str("a_i");
        let name_y = String::from_str("y_i");
        let mut f_i: Option<Vec<G1Affine>> = None;
        let mut a_i: Option<Vec<G1Affine>> = None;
        let mut y_i: Option<Vec<G2Affine>> = None;
        let mut k: usize = 0;
        while k < members.len()
            invariant
                k <= members@.len(),
                views == member_views(members@),
                value@ == JsonView::Object(views),
                name_f@ == "f_i"@,
                name_a@ == "a_i"@,
                name_y@ == "y_i"@,
                scan_ciphertext(views, k as nat) == Ok::<CiphertextParts, DeserializeError>(
                    CiphertextParts {
                        f_i: opt_g1_points(f_i),
                        a_i: opt_g1_points(a_i),
                        y_i: opt_g2_points(y_i),
                    },
                ),
            decreases members@.len() - k,
        {
            let member = &members[k];
            assert(views[k as int] == member@);
            proof {
                if scan_ciphertext(views, (k + 1) as nat) is Err {
                    lemma_scan_ciphertext_fails(views, (k + 1) as nat, views.len());
                }
            }
            if is_name_in_any_case(&member.name, &name_f) {
                if f_i.is_some() {
                    return Err(DeserializeError::DuplicateField(Field::Fi));
                }
                match read_g1_list(&member.value) {
                    Ok(points) => {
                        f_i = Some(points);
                    },
                    Err(e) => {
                        return Err(e);
                    },
                }
            } else if is_name_in_any_case(&member.name, &name_a) {
                if a_i.is_some() {
                    return Err(DeserializeError::DuplicateField(Field::Ai));
                }
                match read_g1_list(&member.value) {
                    Ok(points) => {
                        a_i = Some(points);
                    },
                    Err(e) => {
                        return Err(e);
                    },
                }
            } else if is_name_in_any_case(&member.name, &name_y) {
                if y_i.is_some() {
                    return Err(DeserializeError::DuplicateField(Field::Yi));
                }
                match read_g2_list(&member.value) {
                    Ok(points) => {
                        y_i = Some(points);
                    },
                    Err(e) => {
                        return Err(e);
                    },
                }
            } else {
                return Err(DeserializeError::UnknownField);
            }
            k = k + 1;
        }
        match (f_i, a_i, y_i) {
            (Some(f_i), Some(a_i), Some(y_i)) => Ok(PVSSCiphertext { f_i, a_i, y_i }),
            (None, _, _) => Err(DeserializeError::MissingField(Field::Fi)),
            (_, None, _) => Err(DeserializeError::MissingField(Field::Ai)),
            (_, _, None) => Err(DeserializeError::MissingField(Field::Yi)),
        }
    }
}

impl PVSSSecrets {
    /// The secrets as an object on the wire, from which `deserialize` reads
    /// the secrets back unless they hold the point at infinity.
    pub fn serialize(&self) -> (r: Json)
        ensures
            r@ == secrets_json(self@),
            !self.h_f_0.infinity ==> parse_secrets(r@) == Ok::<SecretsView, DeserializeError>(
                self@,
            ),
    {
        let mut members: Vec<Member> = Vec::new();
        members.push(Member::new(String::from_str("f_0"), FrSerializable(self.f_0).serialize()));
        members.push(
            Member::new(String::from_str("h_f_0"), G2AffineSerializable(self.h_f_0).serialize()),
        );
        assert(member_views(members@) =~= seq![
            MemberView { name: "f_0"@, value: field_json(self.f_0@) },
            MemberView { name: "h_f_0"@, value: g2_json(self.h_f_0@) },
        ]);
        let r = Json::object(members);
        proof {
            if !self.h_f_0.infinity {
                use_type_invariant(&self.f_0);
                self.f_0.lemma_reduced();
                lemma_secrets_round_trip(self@);
            }
        }
        r
    }

    /// Reads secrets from the wire: an object of `f_0` and `h_f_0`, in either
    /// order.
    pub fn deserialize(value: &Json) -> (r: Result<PVSSSecrets, DeserializeError>)
        ensures
            match r {
                Ok(s) => parse_secrets(value@) == Ok::<SecretsView, DeserializeError>(s@),
                Err(e) => parse_secrets(value@) == Err::<SecretsView, DeserializeError>(e),
            },
    {
        let members = match value.as_object() {
            Some(members) => members,
            None => {
                return Err(DeserializeError::InvalidType);
            },
        };
        let ghost views = member_views(members@);
        let name_f = String::from_str("f_0");
        let name_h = String::from_str("h_f_0");
        let mut f_0: Option<Fr> = None;
        let mut h_f_0: Option<G2Affine> = None;
        let mut k: usize = 0;
        while k < members.len()
            invariant
                k <= members@.len(),
                views == member_views(members@),
                value@ == JsonView::Object(views),
                name_f@ == "f_0"@,
                name_h@ == "h_f_0"@,
                scan_pair(views, k as nat, Field::F0, fr_reader(), Field::HF0, g2_reader()) == Ok::<
                    (Option<nat>, Option<G2Point>),
                    DeserializeError,
                >((opt_view(f_0), opt_view(h_f_0))),
            decreases members@.len() - k,
        {
            let member = &members[k];
            assert(views[k as int] == member@);
            proof {
                if scan_pair(
                    views,
                    (k + 1) as nat,
                    Field::F0,
                    fr_reader(),
                    Field::HF0,
                    g2_reader(),
                ) is Err {
                    lemma_scan_pair_fails(
                        views,
                        (k + 1) as nat,
                        views.len(),
                        Field::F0,
                        fr_reader(),
                        Field::HF0,
                        g2_reader(),
                    );
                }
            }
            if member.name == name_f {
                if f_0.is_some() {
                    return Err(DeserializeError::DuplicateField(Field::F0));
                }
                match FrSerializable::deserialize(&member.value) {
                    Ok(v) => {
                        f_0 = Some(v.0);
                    },
                    Err(e) => {
                        return Err(e);
                    },
                }
            } else if member.name == name_h {
                if h_f_0.is_some() {
                    return Err(DeserializeError::DuplicateField(Field::HF0));
                }
                match G2AffineSerializable::deserialize(&member.value) {
                    Ok(v) => {
                        h_f_0 = Some(v.0);
                    },
                    Err(e) => {
                        return Err(e);
                    },
                }
            } else {
                return Err(DeserializeError::UnknownField);
            }
            k = k + 1;
        }
        match (f_0, h_f_0) {
            (Some(f_0), Some(h_f_0)) => Ok(PVSSSecrets { f_0, h_f_0 }),
            (None, _) => Err(DeserializeError::MissingField(Field::F0)),
            (_, None) => Err(DeserializeError::MissingField(Field::HF0)),
        }
    }
}

} // verus!
