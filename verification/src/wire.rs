//! How field elements, points, ciphertexts and secrets are written as values
//! on the wire, and how such values are read back, as mathematics.
//!
//! A field element is the string `0x` followed by the 64 hexadecimal digits,
//! in lower case, of its least residue. An element of the quadratic extension
//! is the array of its two coordinates with `c1` first, the order that
//! Ethereum's pairing precompile takes. A point is the object of its `x` and
//! `y`; the flag of the point at infinity is not written, and every point that
//! is read has the flag unset.

use crate::algebra::{fq_modulus, fr_modulus};
use crate::curve::{G1Point, G2Point};
use crate::field::Fq2Value;
use crate::hex::{ascii_lower_text, hex_text, hex_value, is_hex_text, lemma_hex_text};
use crate::json::{JsonView, MemberView};
use crate::structs::{CiphertextView, SecretsView};
use vstd::arithmetic::div_mod::{lemma_mod_bound, lemma_small_mod};
use vstd::arithmetic::power2::{lemma2_to64, lemma_pow2_adds, pow2};
use vstd::prelude::*;
use vstd::string::StringExecFns;
use vstd::utf8::is_ascii_chars;

verus! {

/// The named values that objects on the wire hold.
#[derive(Clone, Copy, Debug, PartialEq, Eq, Structural)]
pub enum Field {
    /// `x` of a point.
    X,
    /// `y` of a point.
    Y,
    /// `f_i` of a ciphertext.
    Fi,
    /// `a_i` of a ciphertext.
    Ai,
    /// `y_i` of a ciphertext.
    Yi,
    /// `f_0` of the secrets.
    F0,
    /// `h_f_0` of the secrets.
    HF0,
}

/// Why a value on the wire was not read.
#[derive(Clone, Copy, Debug, PartialEq, Eq, Structural)]
pub enum DeserializeError {
    /// A string, an array or an object stands where another of them belongs.
    InvalidType,
    /// A field element is not `0x` and then a positive, even number of
    /// hexadecimal digits.
    InvalidHexString,
    /// A field element is not written as its least residue is: with 64 digits
    /// in lower case that hold a number below the field order.
    HexValueTooLarge,
    /// An array of the given length stands where one of two items belongs.
    InvalidLength(usize),
    /// An object holds a name that does not belong there.
    UnknownField,
    /// An object holds a name twice.
    DuplicateField(Field),
    /// An object lacks a name.
    MissingField(Field),
}

impl Field {
    /// The name of the field on the wire.
    pub fn name(&self) -> (r: String)
        ensures
            r@ == field_name(*self),
    {
        match self {
            Field::X => String::from_str("x"),
            Field::Y => String::from_str("y"),
            Field::Fi => String::from_str("f_i"),
            Field::Ai => String::from_str("a_i"),
            Field::Yi => String::from_str("y_i"),
            Field::F0 => String::from_str("f_0"),
            Field::HF0 => String::from_str("h_f_0"),
        }
    }
}

impl DeserializeError {
    /// A short description of the error, and the field that it is about.
    pub fn message(&self) -> (r: String)
        ensures
            r@ == match *self {
                DeserializeError::InvalidType => "Invalid type"@,
                DeserializeError::InvalidHexString => "Invalid hex string"@,
                DeserializeError::HexValueTooLarge => "Hex value too large"@,
                DeserializeError::InvalidLength(_) => "Invalid length"@,
                DeserializeError::UnknownField => "Unknown field"@,
                DeserializeError::DuplicateField(field) => "Duplicate field "@ + field_name(field),
                DeserializeError::MissingField(field) => "Missing field "@ + field_name(field),
            },
    {
        match self {
            DeserializeError::InvalidType => String::from_str("Invalid type"),
            DeserializeError::InvalidHexString => String::from_str("Invalid hex string"),
            DeserializeError::HexValueTooLarge => String::from_str("Hex value too large"),
            DeserializeError::InvalidLength(_) => String::from_str("Invalid length"),
            DeserializeError::UnknownField => String::from_str("Unknown field"),
            DeserializeError::DuplicateField(field) => String::from_str("Duplicate field ").concat(
                field.name().as_str(),
            ),
            DeserializeError::MissingField(field) => String::from_str("Missing field ").concat(
                field.name().as_str(),
            ),
        }
    }
}

/// The name of a field on the wire.
pub open spec fn field_name(field: Field) -> Seq<char> {
    match field {
        Field::X => "x"@,
        Field::Y => "y"@,
        Field::Fi => "f_i"@,
        Field::Ai => "a_i"@,
        Field::Yi => "y_i"@,
        Field::F0 => "f_0"@,
        Field::HF0 => "h_f_0"@,
    }
}

/// Whether a name on the wire names the field. The names of a ciphertext are
/// taken in either case; every other name is taken as it is written.
pub open spec fn names_field(name: Seq<char>, field: Field) -> bool {
    match field {
        Field::Fi | Field::Ai | Field::Yi => is_ascii_chars(name) && ascii_lower_text(name)
            == field_name(field),
        _ => name == field_name(field),
    }
}

/// The text of a field element.
pub open spec fn field_text(v: nat) -> Seq<char> {
    "0x"@ + hex_text(v, 64, false)
}

/// The digits of a text that is `0x` and then a positive, even number of
/// hexadecimal digits.
pub open spec fn hex_part(s: Seq<char>) -> Option<Seq<char>> {
    if s.len() > 2 && s[0] == '0' && s[1] == 'x' && s.skip(2).len() % 2 == 0 && is_hex_text(
        s.skip(2),
    ) {
        Some(s.skip(2))
    } else {
        None
    }
}

/// The element of the field of the given order that a text holds.
pub open spec fn parse_field_text(s: Seq<char>, modulus: nat) -> Result<nat, DeserializeError> {
    match hex_part(s) {
        None => Err(DeserializeError::InvalidHexString),
        Some(h) => {
            let v = hex_value(h) % modulus;
            if h == hex_text(v, 64, false) {
                Ok(v)
            } else {
                Err(DeserializeError::HexValueTooLarge)
            }
        },
    }
}

/// A field element on the wire.
pub open spec fn field_json(v: nat) -> JsonView {
    JsonView::String(field_text(v))
}

/// The element of the field of the given order that a value on the wire
/// holds.
pub open spec fn parse_field(j: JsonView, modulus: nat) -> Result<nat, DeserializeError> {
    match j {
        JsonView::String(s) => parse_field_text(s, modulus),
        _ => Err(DeserializeError::InvalidType),
    }
}

/// Reads an element of the scalar field.
pub open spec fn fr_reader() -> spec_fn(JsonView) -> Result<nat, DeserializeError> {
    |v: JsonView| parse_field(v, fr_modulus())
}

/// Reads an element of the base field.
pub open spec fn fq_reader() -> spec_fn(JsonView) -> Result<nat, DeserializeError> {
    |v: JsonView| parse_field(v, fq_modulus())
}

/// An element of the quadratic extension on the wire: `c1`, then `c0`.
pub open spec fn fq2_json(v: Fq2Value) -> JsonView {
    JsonView::Array(seq![field_json(v.c1), field_json(v.c0)])
}

/// The element of the quadratic extension that a value on the wire holds. The
/// items are read in their order, and an item that is there is read before a
/// wrong number of items is reported.
pub open spec fn parse_fq2(j: JsonView) -> Result<Fq2Value, DeserializeError> {
    match j {
        JsonView::Array(items) => {
            if items.len() == 0 {
                Err(DeserializeError::InvalidLength(0))
            } else {
                match parse_field(items[0], fq_modulus()) {
                    Err(e) => Err(e),
                    Ok(c1) => {
                        if items.len() == 1 {
                            Err(DeserializeError::InvalidLength(1))
                        } else {
                            match parse_field(items[1], fq_modulus()) {
                                Err(e) => Err(e),
                                Ok(c0) => {
                                    if items.len() > 2 {
                                        Err(DeserializeError::InvalidLength(items.len() as usize))
                                    } else {
                                        Ok(Fq2Value { c0, c1 })
                                    }
                                },
                            }
                        }
                    },
                }
            }
        },
        _ => Err(DeserializeError::InvalidType),
    }
}

/// Reads an element of the quadratic extension.
pub open spec fn fq2_reader() -> spec_fn(JsonView) -> Result<Fq2Value, DeserializeError> {
    |v: JsonView| parse_fq2(v)
}

/// What reading the first `k` named values of an object with the two fields
/// `field_a` and `field_b` gives: what has been read of each, or the first
/// error. A name that is neither field is an error, as is a name that comes
/// again; a value is read when its name is met.
pub open spec fn scan_pair<A, B>(
    members: Seq<MemberView>,
    k: nat,
    field_a: Field,
    parse_a: spec_fn(JsonView) -> Result<A, DeserializeError>,
    field_b: Field,
    parse_b: spec_fn(JsonView) -> Result<B, DeserializeError>,
) -> Result<(Option<A>, Option<B>), DeserializeError>
    decreases k,
{
    if k == 0 {
        Ok((None, None))
    } else {
        match scan_pair(members, (k - 1) as nat, field_a, parse_a, field_b, parse_b) {
            Err(e) => Err(e),
            Ok((a, b)) => {
                let member = members[k - 1];
                if names_field(member.name, field_a) {
                    if a is Some {
                        Err(DeserializeError::DuplicateField(field_a))
                    } else {
                        match parse_a(member.value) {
                            Err(e) => Err(e),
                            Ok(v) => Ok((Some(v), b)),
                        }
                    }
                } else if names_field(member.name, field_b) {
                    if b is Some {
                        Err(DeserializeError::DuplicateField(field_b))
                    } else {
                        match parse_b(member.value) {
                            Err(e) => Err(e),
                            Ok(v) => Ok((a, Some(v))),
                        }
                    }
                } else {
                    Err(DeserializeError::UnknownField)
                }
            },
        }
    }
}

/// The two values that an object with the fields `field_a` and `field_b`
/// holds, in whichever order they stand. A field that is not there is reported
/// once all of the object has been read, `field_a` before `field_b`.
pub open spec fn parse_pair<A, B>(
    j: JsonView,
    field_a: Field,
    parse_a: spec_fn(JsonView) -> Result<A, DeserializeError>,
    field_b: Field,
    parse_b: spec_fn(JsonView) -> Result<B, DeserializeError>,
) -> Result<(A, B), DeserializeError> {
    match j {
        JsonView::Object(members) => {
            match scan_pair(members, members.len(), field_a, parse_a, field_b, parse_b) {
                Err(e) => Err(e),
                Ok((a, b)) => {
                    if a is None {
                        Err(DeserializeError::MissingField(field_a))
                    } else if b is None {
                        Err(DeserializeError::MissingField(field_b))
                    } else {
                        Ok((a->0, b->0))
                    }
                },
            }
        },
        _ => Err(DeserializeError::InvalidType),
    }
}

/// A point of the first group on the wire.
pub open spec fn g1_json(p: G1Point) -> JsonView {
    JsonView::Object(
        seq![
            MemberView { name: "x"@, value: field_json(p.x) },
            MemberView { name: "y"@, value: field_json(p.y) },
        ],
    )
}

/// The point of the first group that a value on the wire holds.
pub open spec fn parse_g1(j: JsonView) -> Result<G1Point, DeserializeError> {
    match parse_pair(j, Field::X, fq_reader(), Field::Y, fq_reader()) {
        Err(e) => Err(e),
        Ok((x, y)) => Ok(G1Point { x, y, infinity: false }),
    }
}

/// Reads a point of the first group.
pub open spec fn g1_reader() -> spec_fn(JsonView) -> Result<G1Point, DeserializeError> {
    |v: JsonView| parse_g1(v)
}

/// A point of the second group on the wire.
pub open spec fn g2_json(p: G2Point) -> JsonView {
    JsonView::Object(
        seq![
            MemberView { name: "x"@, value: fq2_json(p.x) },
            MemberView { name: "y"@, value: fq2_json(p.y) },
        ],
    )
}

/// The point of the second group that a value on the wire holds.
pub open spec fn parse_g2(j: JsonView) -> Result<G2Point, DeserializeError> {
    match parse_pair(j, Field::X, fq2_reader(), Field::Y, fq2_reader()) {
        Err(e) => Err(e),
        Ok((x, y)) => Ok(G2Point { x, y, infinity: false }),
    }
}

/// Reads a point of the second group.
pub open spec fn g2_reader() -> spec_fn(JsonView) -> Result<G2Point, DeserializeError> {
    |v: JsonView| parse_g2(v)
}

/// What reading the first `k` items of an array gives: the items read, or the
/// first error.
pub open spec fn scan_list<T>(
    items: Seq<JsonView>,
    k: nat,
    parse: spec_fn(JsonView) -> Result<T, DeserializeError>,
) -> Result<Seq<T>, DeserializeError>
    decreases k,
{
    if k == 0 {
        Ok(Seq::empty())
    } else {
        match scan_list(items, (k - 1) as nat, parse) {
            Err(e) => Err(e),
            Ok(read) => match parse(items[k - 1]) {
                Err(e) => Err(e),
                Ok(v) => Ok(read.push(v)),
            },
        }
    }
}

/// The items that an array on the wire holds.
pub open spec fn parse_list<T>(
    j: JsonView,
    parse: spec_fn(JsonView) -> Result<T, DeserializeError>,
) -> Result<Seq<T>, DeserializeError> {
    match j {
        JsonView::Array(items) => scan_list(items, items.len(), parse),
        _ => Err(DeserializeError::InvalidType),
    }
}

/// Points of the first group as an array on the wire.
pub open spec fn g1_list_json(points: Seq<G1Point>) -> JsonView {
    JsonView::Array(points.map_values(|p: G1Point| g1_json(p)))
}

/// Points of the second group as an array on the wire.
pub open spec fn g2_list_json(points: Seq<G2Point>) -> JsonView {
    JsonView::Array(points.map_values(|p: G2Point| g2_json(p)))
}

/// A ciphertext on the wire.
pub open spec fn ciphertext_json(c: CiphertextView) -> JsonView {
    JsonView::Object(
        seq![
            MemberView { name: "f_i"@, value: g1_list_json(c.f_i) },
            MemberView { name: "a_i"@, value: g1_list_json(c.a_i) },
            MemberView { name: "y_i"@, value: g2_list_json(c.y_i) },
        ],
    )
}

/// What has been read of the three fields of a ciphertext.
pub struct CiphertextParts {
    pub f_i: Option<Seq<G1Point>>,
    pub a_i: Option<Seq<G1Point>>,
    pub y_i: Option<Seq<G2Point>>,
}

/// What reading the first `k` named values of a ciphertext gives, by the
/// rules of `scan_pair`.
pub open spec fn scan_ciphertext(members: Seq<MemberView>, k: nat) -> Result<
    CiphertextParts,
    DeserializeError,
>
    decreases k,
{
    if k == 0 {
        Ok(CiphertextParts { f_i: None, a_i: None, y_i: None })
    } else {
        match scan_ciphertext(members, (k - 1) as nat) {
            Err(e) => Err(e),
            Ok(parts) => {
                let member = members[k - 1];
                if names_field(member.name, Field::Fi) {
                    if parts.f_i is Some {
                        Err(DeserializeError::DuplicateField(Field::Fi))
                    } else {
                        match parse_list(member.value, g1_reader()) {
                            Err(e) => Err(e),
                            Ok(points) => Ok(CiphertextParts { f_i: Some(points), ..parts }),
                        }
                    }
                } else if names_field(member.name, Field::Ai) {
                    if parts.a_i is Some {
                        Err(DeserializeError::DuplicateField(Field::Ai))
                    } else {
                        match parse_list(member.value, g1_reader()) {
                            Err(e) => Err(e),
                            Ok(points) => Ok(CiphertextParts { a_i: Some(points), ..parts }),
                        }
                    }
                } else if names_field(member.name, Field::Yi) {
                    if parts.y_i is Some {
                        Err(DeserializeError::DuplicateField(Field::Yi))
                    } else {
                        match parse_list(member.value, g2_reader()) {
                            Err(e) => Err(e),
                            Ok(points) => Ok(CiphertextParts { y_i: Some(points), ..parts }),
                        }
                    }
                } else {
                    Err(DeserializeError::UnknownField)
                }
            },
        }
    }
}

/// The ciphertext that a value on the wire holds. A field that is not there is
/// reported once all of the object has been read: `f_i` before `a_i` before
/// `y_i`.
pub open spec fn parse_ciphertext(j: JsonView) -> Result<CiphertextView, DeserializeError> {
    match j {
        JsonView::Object(members) => {
            match scan_ciphertext(members, members.len()) {
                Err(e) => Err(e),
                Ok(parts) => {
                    if parts.f_i is None {
                        Err(DeserializeError::MissingField(Field::Fi))
                    } else if parts.a_i is None {
                        Err(DeserializeError::MissingField(Field::Ai))
                    } else if parts.y_i is None {
                        Err(DeserializeError::MissingField(Field::Yi))
                    } else {
                        Ok(CiphertextView { f_i: parts.f_i->0, a_i: parts.a_i->0, y_i: parts.y_i->0 })
                    }
                },
            }
        },
        _ => Err(DeserializeError::InvalidType),
    }
}

/// The dealer's secrets on the wire.
pub open spec fn secrets_json(s: SecretsView) -> JsonView {
    JsonView::Object(
        seq![
            MemberView { name: "f_0"@, value: field_json(s.f_0) },
            MemberView { name: "h_f_0"@, value: g2_json(s.h_f_0) },
        ],
    )
}

/// The secrets that a value on the wire holds.
pub open spec fn parse_secrets(j: JsonView) -> Result<SecretsView, DeserializeError> {
    match parse_pair(j, Field::F0, fr_reader(), Field::HF0, g2_reader()) {
        Err(e) => Err(e),
        Ok((f_0, h_f_0)) => Ok(SecretsView { f_0, h_f_0 }),
    }
}

/// Once reading an object has failed, it has failed.
pub proof fn lemma_scan_pair_fails<A, B>(
    members: Seq<MemberView>,
    k: nat,
    n: nat,
    field_a: Field,
    parse_a: spec_fn(JsonView) -> Result<A, DeserializeError>,
    field_b: Field,
    parse_b: spec_fn(JsonView) -> Result<B, DeserializeError>,
)
    requires
        k <= n,
        scan_pair(members, k, field_a, parse_a, field_b, parse_b) is Err,
    ensures
        scan_pair(members, n, field_a, parse_a, field_b, parse_b) == scan_pair(
            members,
            k,
            field_a,
            parse_a,
            field_b,
            parse_b,
        ),
    decreases n,
{
    if k < n {
        lemma_scan_pair_fails(members, k, (n - 1) as nat, field_a, parse_a, field_b, parse_b);
    }
}

/// Once reading an array has failed, it has failed.
pub proof fn lemma_scan_list_fails<T>(
    items: Seq<JsonView>,
    k: nat,
    n: nat,
    parse: spec_fn(JsonView) -> Result<T, DeserializeError>,
)
    requires
        k <= n,
        scan_list(items, k, parse) is Err,
    ensures
        scan_list(items, n, parse) == scan_list(items, k, parse),
    decreases n,
{
    if k < n {
        lemma_scan_list_fails(items, k, (n - 1) as nat, parse);
    }
}

/// Once reading a ciphertext has failed, it has failed.
pub proof fn lemma_scan_ciphertext_fails(members: Seq<MemberView>, k: nat, n: nat)
    requires
        k <= n,
        scan_ciphertext(members, k) is Err,
    ensures
        scan_ciphertext(members, n) == scan_ciphertext(members, k),
    decreases n,
{
    if k < n {
        lemma_scan_ciphertext_fails(members, k, (n - 1) as nat);
    }
}

/// The coordinates of a point of the first group are reduced, and the point
/// is not the point at infinity: such a point can go over the wire.
pub open spec fn g1_writable(p: G1Point) -> bool {
    p.x < fq_modulus() && p.y < fq_modulus() && !p.infinity
}

/// The coordinates of an element of the quadratic extension are reduced.
pub open spec fn fq2_reduced(v: Fq2Value) -> bool {
    v.c0 < fq_modulus() && v.c1 < fq_modulus()
}

/// The coordinates of a point of the second group are reduced, and the point
/// is not the point at infinity: such a point can go over the wire.
pub open spec fn g2_writable(p: G2Point) -> bool {
    fq2_reduced(p.x) && fq2_reduced(p.y) && !p.infinity
}

/// Every point of a ciphertext can go over the wire.
pub open spec fn ciphertext_writable(c: CiphertextView) -> bool {
    &&& forall|i: int| 0 <= i < c.f_i.len() ==> g1_writable(#[trigger] c.f_i[i])
    &&& forall|i: int| 0 <= i < c.a_i.len() ==> g1_writable(#[trigger] c.a_i[i])
    &&& forall|i: int| 0 <= i < c.y_i.len() ==> g2_writable(#[trigger] c.y_i[i])
}

/// No point of a ciphertext is the point at infinity.
pub open spec fn ciphertext_finite(c: CiphertextView) -> bool {
    &&& forall|i: int| 0 <= i < c.f_i.len() ==> !(#[trigger] c.f_i[i]).infinity
    &&& forall|i: int| 0 <= i < c.a_i.len() ==> !(#[trigger] c.a_i[i]).infinity
    &&& forall|i: int| 0 <= i < c.y_i.len() ==> !(#[trigger] c.y_i[i]).infinity
}

/// Both field orders have at most 256 bits.
pub proof fn lemma_moduli_fit()
    ensures
        fr_modulus() < pow2(256),
        fq_modulus() < pow2(256),
{
    lemma2_to64();
    lemma_pow2_adds(64, 64);
    lemma_pow2_adds(128, 128);
    assert(pow2(128) == 0x1_0000_0000_0000_0000_0000_0000_0000_0000) by (nonlinear_arith)
        requires
            pow2(128) == pow2(64) * pow2(64),
            pow2(64) == 0x1_0000_0000_0000_0000,
    ;
    assert(pow2(256)
        == 0x1_0000_0000_0000_0000_0000_0000_0000_0000_0000_0000_0000_0000_0000_0000_0000_0000)
        by (nonlinear_arith)
        requires
            pow2(256) == pow2(128) * pow2(128),
            pow2(128) == 0x1_0000_0000_0000_0000_0000_0000_0000_0000,
    ;
}

/// A field element that is written and read back is the same element.
pub proof fn lemma_field_round_trip(v: nat, modulus: nat)
    requires
        v < modulus,
        modulus == fr_modulus() || modulus == fq_modulus(),
    ensures
        parse_field(field_json(v), modulus) == Ok::<nat, DeserializeError>(v),
{
    let digits = hex_text(v, 64, false);
    let s = field_text(v);
    reveal_strlit("0x");
    lemma_moduli_fit();
    lemma_hex_text(v, 64, false);
    lemma_small_mod(v, modulus);
    assert(s.skip(2) =~= digits);
}

/// A string is read as a field element only if it is what is written for
/// that element, and the element is reduced.
pub proof fn lemma_field_read_is_written(j: JsonView, modulus: nat, v: nat)
    requires
        modulus > 0,
        parse_field(j, modulus) == Ok::<nat, DeserializeError>(v),
    ensures
        j == field_json(v),
        v < modulus,
{
    let s = j->String_0;
    let digits = s.skip(2);
    reveal_strlit("0x");
    assert(s =~= "0x"@ + digits);
    lemma_mod_bound(hex_value(digits) as int, modulus as int);
}

/// An element of the quadratic extension that is written and read back is
/// the same element.
pub proof fn lemma_fq2_round_trip(v: Fq2Value)
    requires
        fq2_reduced(v),
    ensures
        parse_fq2(fq2_json(v)) == Ok::<Fq2Value, DeserializeError>(v),
{
    lemma_field_round_trip(v.c0, fq_modulus());
    lemma_field_round_trip(v.c1, fq_modulus());
}

/// Of the two strings that are written for an element of the quadratic
/// extension, the first holds `c1` and the second `c0`.
pub proof fn lemma_fq2_wire_order(v: Fq2Value)
    requires
        fq2_reduced(v),
    ensures
        fq2_json(v) is Array,
        fq2_json(v)->Array_0.len() == 2,
        parse_field(fq2_json(v)->Array_0[0], fq_modulus()) == Ok::<nat, DeserializeError>(v.c1),
        parse_field(fq2_json(v)->Array_0[1], fq_modulus()) == Ok::<nat, DeserializeError>(v.c0),
{
    lemma_field_round_trip(v.c0, fq_modulus());
    lemma_field_round_trip(v.c1, fq_modulus());
}

/// The names of the fields are what they are, and no two are the same.
proof fn lemma_names()
    ensures
        names_field("x"@, Field::X),
        !names_field("y"@, Field::X),
        names_field("y"@, Field::Y),
        names_field("f_0"@, Field::F0),
        !names_field("h_f_0"@, Field::F0),
        names_field("h_f_0"@, Field::HF0),
        names_field("f_i"@, Field::Fi),
        !names_field("a_i"@, Field::Fi),
        names_field("a_i"@, Field::Ai),
        !names_field("y_i"@, Field::Fi),
        !names_field("y_i"@, Field::Ai),
        names_field("y_i"@, Field::Yi),
{
    reveal_strlit("x");
    reveal_strlit("y");
    reveal_strlit("f_0");
    reveal_strlit("h_f_0");
    reveal_strlit("f_i");
    reveal_strlit("a_i");
    reveal_strlit("y_i");
    assert("x"@[0] != "y"@[0]);
    assert("f_0"@.len() != "h_f_0"@.len());
    assert(ascii_lower_text("f_i"@) =~= "f_i"@);
    assert(ascii_lower_text("a_i"@) =~= "a_i"@);
    assert(ascii_lower_text("y_i"@) =~= "y_i"@);
    assert("a_i"@[0] != "f_i"@[0]);
    assert("y_i"@[0] != "f_i"@[0]);
    assert("y_i"@[0] != "a_i"@[0]);
}

/// An object of two fields, written in their order with values that are read
/// back as they were, is read back as the two values.
proof fn lemma_pair_round_trip<A, B>(
    field_a: Field,
    parse_a: spec_fn(JsonView) -> Result<A, DeserializeError>,
    json_a: JsonView,
    a: A,
    field_b: Field,
    parse_b: spec_fn(JsonView) -> Result<B, DeserializeError>,
    json_b: JsonView,
    b: B,
)
    requires
        names_field(field_name(field_a), field_a),
        !names_field(field_name(field_b), field_a),
        names_field(field_name(field_b), field_b),
        parse_a(json_a) == Ok::<A, DeserializeError>(a),
        parse_b(json_b) == Ok::<B, DeserializeError>(b),
    ensures
        parse_pair(
            JsonView::Object(
                seq![
                    MemberView { name: field_name(field_a), value: json_a },
                    MemberView { name: field_name(field_b), value: json_b },
                ],
            ),
            field_a,
            parse_a,
            field_b,
            parse_b,
        ) == Ok::<(A, B), DeserializeError>((a, b)),
{
    let members = seq![
        MemberView { name: field_name(field_a), value: json_a },
        MemberView { name: field_name(field_b), value: json_b },
    ];
    assert(scan_pair(members, 0, field_a, parse_a, field_b, parse_b) == Ok::<
        (Option<A>, Option<B>),
        DeserializeError,
    >((None, None)));
    assert(scan_pair(members, 1, field_a, parse_a, field_b, parse_b) == Ok::<
        (Option<A>, Option<B>),
        DeserializeError,
    >((Some(a), None)));
    assert(scan_pair(members, 2, field_a, parse_a, field_b, parse_b) == Ok::<
        (Option<A>, Option<B>),
        DeserializeError,
    >((Some(a), Some(b))));
}

/// A point of the first group that is written and read back is the same
/// point.
pub proof fn lemma_g1_round_trip(p: G1Point)
    requires
        g1_writable(p),
    ensures
        parse_g1(g1_json(p)) == Ok::<G1Point, DeserializeError>(p),
{
    lemma_names();
    lemma_field_round_trip(p.x, fq_modulus());
    lemma_field_round_trip(p.y, fq_modulus());
    lemma_pair_round_trip(
        Field::X,
        fq_reader(),
        field_json(p.x),
        p.x,
        Field::Y,
        fq_reader(),
        field_json(p.y),
        p.y,
    );
}

/// A point of the second group that is written and read back is the same
/// point.
pub proof fn lemma_g2_round_trip(p: G2Point)
    requires
        g2_writable(p),
    ensures
        parse_g2(g2_json(p)) == Ok::<G2Point, DeserializeError>(p),
{
    lemma_names();
    lemma_fq2_round_trip(p.x);
    lemma_fq2_round_trip(p.y);
    lemma_pair_round_trip(
        Field::X,
        fq2_reader(),
        fq2_json(p.x),
        p.x,
        Field::Y,
        fq2_reader(),
        fq2_json(p.y),
        p.y,
    );
}

/// The dealer's secrets, written and read back, are the same secrets.
pub proof fn lemma_secrets_round_trip(s: SecretsView)
    requires
        s.f_0 < fr_modulus(),
        g2_writable(s.h_f_0),
    ensures
        parse_secrets(secrets_json(s)) == Ok::<SecretsView, DeserializeError>(s),
{
    lemma_names();
    lemma_field_round_trip(s.f_0, fr_modulus());
    lemma_g2_round_trip(s.h_f_0);
    lemma_pair_round_trip(
        Field::F0,
        fr_reader(),
        field_json(s.f_0),
        s.f_0,
        Field::HF0,
        g2_reader(),
        g2_json(s.h_f_0),
        s.h_f_0,
    );
}

/// An array of values that are each read back as they were is read back as
/// it was.
proof fn lemma_list_round_trip<T>(
    values: Seq<T>,
    items: Seq<JsonView>,
    parse: spec_fn(JsonView) -> Result<T, DeserializeError>,
    k: nat,
)
    requires
        k <= values.len(),
        items.len() == values.len(),
        forall|i: int|
            0 <= i < values.len() ==> parse(#[trigger] items[i]) == Ok::<T, DeserializeError>(
                values[i],
            ),
    ensures
        scan_list(items, k, parse) == Ok::<Seq<T>, DeserializeError>(values.take(k as int)),
    decreases k,
{
    if k == 0 {
        assert(values.take(0) =~= Seq::empty());
    } else {
        lemma_list_round_trip(values, items, parse, (k - 1) as nat);
        assert(values.take(k as int) =~= values.take(k - 1).push(values[k - 1]));
    }
}

/// Points of the first group that are written and read back are the same
/// points.
pub proof fn lemma_g1_list_round_trip(points: Seq<G1Point>)
    requires
        forall|i: int| 0 <= i < points.len() ==> g1_writable(#[trigger] points[i]),
    ensures
        parse_list(g1_list_json(points), g1_reader()) == Ok::<Seq<G1Point>, DeserializeError>(
            points,
        ),
{
    let items = points.map_values(|p: G1Point| g1_json(p));
    assert forall|i: int| 0 <= i < points.len() implies g1_reader()(#[trigger] items[i]) == Ok::<
        G1Point,
        DeserializeError,
    >(points[i]) by {
        lemma_g1_round_trip(points[i]);
    }
    lemma_list_round_trip(points, items, g1_reader(), points.len());
    assert(points.take(points.len() as int) =~= points);
}

/// Points of the second group that are written and read back are the same
/// points.
pub proof fn lemma_g2_list_round_trip(points: Seq<G2Point>)
    requires
        forall|i: int| 0 <= i < points.len() ==> g2_writable(#[trigger] points[i]),
    ensures
        parse_list(g2_list_json(points), g2_reader()) == Ok::<Seq<G2Point>, DeserializeError>(
            points,
        ),
{
    let items = points.map_values(|p: G2Point| g2_json(p));
    assert forall|i: int| 0 <= i < points.len() implies g2_reader()(#[trigger] items[i]) == Ok::<
        G2Point,
        DeserializeError,
    >(points[i]) by {
        lemma_g2_round_trip(points[i]);
    }
    lemma_list_round_trip(points, items, g2_reader(), points.len());
    assert(points.take(points.len() as int) =~= points);
}

/// An object of the three fields of a ciphertext, written in their order with
/// lists that are read back as they were, is read back as the three lists.
proof fn lemma_ciphertext_fields_round_trip(c: CiphertextView, f: JsonView, a: JsonView, y: JsonView)
    requires
        names_field("f_i"@, Field::Fi),
        !names_field("a_i"@, Field::Fi),
        names_field("a_i"@, Field::Ai),
        !names_field("y_i"@, Field::Fi),
        !names_field("y_i"@, Field::Ai),
        names_field("y_i"@, Field::Yi),
        parse_list(f, g1_reader()) == Ok::<Seq<G1Point>, DeserializeError>(c.f_i),
        parse_list(a, g1_reader()) == Ok::<Seq<G1Point>, DeserializeError>(c.a_i),
        parse_list(y, g2_reader()) == Ok::<Seq<G2Point>, DeserializeError>(c.y_i),
    ensures
        parse_ciphertext(
            JsonView::Object(
                seq![
                    MemberView { name: "f_i"@, value: f },
                    MemberView { name: "a_i"@, value: a },
                    MemberView { name: "y_i"@, value: y },
                ],
            ),
        ) == Ok::<CiphertextView, DeserializeError>(c),
{
    let members = seq![
        MemberView { name: "f_i"@, value: f },
        MemberView { name: "a_i"@, value: a },
        MemberView { name: "y_i"@, value: y },
    ];
    let none = CiphertextParts { f_i: None, a_i: None, y_i: None };
    assert(scan_ciphertext(members, 0) == Ok::<CiphertextParts, DeserializeError>(none));
    let one = CiphertextParts { f_i: Some(c.f_i), a_i: None, y_i: None };
    assert(scan_ciphertext(members, 1) == Ok::<CiphertextParts, DeserializeError>(one)) by {
        assert(members[0].name == "f_i"@ && members[0].value == f);
    }
    let two = CiphertextParts { f_i: Some(c.f_i), a_i: Some(c.a_i), y_i: None };
    assert(scan_ciphertext(members, 2) == Ok::<CiphertextParts, DeserializeError>(two)) by {
        assert(members[1].name == "a_i"@ && members[1].value == a);
    }
    let three = CiphertextParts { f_i: Some(c.f_i), a_i: Some(c.a_i), y_i: Some(c.y_i) };
    assert(scan_ciphertext(members, 3) == Ok::<CiphertextParts, DeserializeError>(three)) by {
        assert(members[2].name == "y_i"@ && members[2].value == y);
    }
    assert(members.len() == 3);
}

/// A ciphertext that is written and read back is the same ciphertext.
pub proof fn lemma_ciphertext_round_trip(c: CiphertextView)
    requires
        ciphertext_writable(c),
    ensures
        parse_ciphertext(ciphertext_json(c)) == Ok::<CiphertextView, DeserializeError>(c),
{
    lemma_names();
    lemma_g1_list_round_trip(c.f_i);
    lemma_g1_list_round_trip(c.a_i);
    lemma_g2_list_round_trip(c.y_i);
    lemma_ciphertext_fields_round_trip(
        c,
        g1_list_json(c.f_i),
        g1_list_json(c.a_i),
        g2_list_json(c.y_i),
    );
}

/// What was written for a value is, once read, written again as it was: for
/// a field element, an element of the quadratic extension, a point of either
/// group, a ciphertext and the dealer's secrets.
pub proof fn lemma_written_again(
    scalar: nat,
    base: nat,
    extension: Fq2Value,
    p: G1Point,
    q: G2Point,
    c: CiphertextView,
    s: SecretsView,
)
    requires
        scalar < fr_modulus(),
        base < fq_modulus(),
        fq2_reduced(extension),
        g1_writable(p),
        g2_writable(q),
        ciphertext_writable(c),
        s.f_0 < fr_modulus(),
        g2_writable(s.h_f_0),
    ensures
        parse_field(field_json(scalar), fr_modulus()) is Ok,
        field_json(parse_field(field_json(scalar), fr_modulus())->Ok_0) == field_json(scalar),
        parse_field(field_json(base), fq_modulus()) is Ok,
        field_json(parse_field(field_json(base), fq_modulus())->Ok_0) == field_json(base),
        parse_fq2(fq2_json(extension)) is Ok,
        fq2_json(parse_fq2(fq2_json(extension))->Ok_0) == fq2_json(extension),
        parse_g1(g1_json(p)) is Ok,
        g1_json(parse_g1(g1_json(p))->Ok_0) == g1_json(p),
        parse_g2(g2_json(q)) is Ok,
        g2_json(parse_g2(g2_json(q))->Ok_0) == g2_json(q),
        parse_ciphertext(ciphertext_json(c)) is Ok,
        ciphertext_json(parse_ciphertext(ciphertext_json(c))->Ok_0) == ciphertext_json(c),
        parse_secrets(secrets_json(s)) is Ok,
        secrets_json(parse_secrets(secrets_json(s))->Ok_0) == secrets_json(s),
{
    lemma_field_round_trip(scalar, fr_modulus());
    lemma_field_round_trip(base, fq_modulus());
    lemma_fq2_round_trip(extension);
    lemma_g1_round_trip(p);
    lemma_g2_round_trip(q);
    lemma_ciphertext_round_trip(c);
    lemma_secrets_round_trip(s);
}

} // verus!
