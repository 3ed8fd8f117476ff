use cassiopeia::committee::gen_keys;
use cassiopeia::curve::{G1Affine, G2Affine};
use cassiopeia::dealer::distribute_secret;
use cassiopeia::field::{Fq, Fq2, Fr};
use cassiopeia::json::{Json, Member};
use cassiopeia::serialize::{
    Fq2Serializable, FqSerializable, FrSerializable, G1AffineSerializable, G2AffineSerializable,
};
use cassiopeia::structs::{PVSSCiphertext, PVSSConfig, PVSSSecrets, PairingConfig};
use cassiopeia::wire::{DeserializeError, Field};

const R_MINUS_ONE: &str = "0x30644e72e131a029b85045b68181585d2833e84879b9709143e1f593f0000000";
const R_TEXT: &str = "0x30644e72e131a029b85045b68181585d2833e84879b9709143e1f593f0000001";
const Q_MINUS_ONE: &str = "0x30644e72e131a029b85045b68181585d97816a916871ca8d3c208c16d87cfd46";
const Q_TEXT: &str = "0x30644e72e131a029b85045b68181585d97816a916871ca8d3c208c16d87cfd47";
const ONE: &str = "0x0000000000000000000000000000000000000000000000000000000000000001";
const TWO: &str = "0x0000000000000000000000000000000000000000000000000000000000000002";
const ZERO: &str = "0x0000000000000000000000000000000000000000000000000000000000000000";

fn text(s: &str) -> Json {
    Json::string(s.to_string())
}

fn as_text(j: &Json) -> String {
    j.as_string().unwrap().clone()
}

fn object(members: Vec<(&str, Json)>) -> Json {
    Json::object(members.into_iter().map(|(name, value)| Member::new(name.to_string(), value)).collect())
}

fn names(j: &Json) -> Vec<String> {
    j.as_object().unwrap().iter().map(|m| m.name.clone()).collect()
}

fn same(a: &Json, b: &Json) -> bool {
    match (a, b) {
        (Json::String(x), Json::String(y)) => x == y,
        (Json::Array(x), Json::Array(y)) => {
            x.len() == y.len() && x.iter().zip(y.iter()).all(|(p, q)| same(p, q))
        }
        (Json::Object(x), Json::Object(y)) => {
            x.len() == y.len()
                && x.iter().zip(y.iter()).all(|(p, q)| p.name == q.name && same(&p.value, &q.value))
        }
        _ => false,
    }
}

fn g1_of(x: u64, y: u64) -> G1Affine {
    G1Affine::new(Fq::from_u64(x), Fq::from_u64(y), false)
}

fn g2_of(a: u64, b: u64, c: u64, d: u64) -> G2Affine {
    G2Affine::new(
        Fq2::new(Fq::from_u64(a), Fq::from_u64(b)),
        Fq2::new(Fq::from_u64(c), Fq::from_u64(d)),
        false,
    )
}

#[test]
fn scalar_is_written_as_64_digits_in_lower_case() {
    assert_eq!(as_text(&FrSerializable(Fr::one()).serialize()), ONE);
    assert_eq!(as_text(&FrSerializable(Fr::zero()).serialize()), ZERO);
    assert_eq!(
        as_text(&FrSerializable(Fr::from_u64(0xABCDEF0123456789)).serialize()),
        "0x000000000000000000000000000000000000000000000000abcdef0123456789"
    );
    let largest = Fr::from_limbs([
        0x43e1f593f0000000,
        0x2833e84879b97091,
        0xb85045b68181585d,
        0x30644e72e131a029,
    ])
    .unwrap();
    assert_eq!(as_text(&FrSerializable(largest).serialize()), R_MINUS_ONE);
    assert_eq!(as_text(&FqSerializable(Fq::from_u64(2)).serialize()), TWO);
    let largest = Fq::from_limbs([
        0x3c208c16d87cfd46,
        0x97816a916871ca8d,
        0xb85045b68181585d,
        0x30644e72e131a029,
    ])
    .unwrap();
    assert_eq!(as_text(&FqSerializable(largest).serialize()), Q_MINUS_ONE);
}

#[test]
fn scalar_is_read_from_its_text() {
    assert_eq!(FrSerializable::deserialize(&text(ONE)), Ok(FrSerializable(Fr::one())));
    assert_eq!(FrSerializable::deserialize(&text(ZERO)), Ok(FrSerializable(Fr::zero())));
    assert_eq!(
        FrSerializable::deserialize(&text(
            "0x00000000000000000000000000000001000000000000000000000000000000ff"
        )),
        Ok(FrSerializable(Fr::from_limbs([0xff, 0, 1, 0]).unwrap()))
    );
    assert_eq!(FqSerializable::deserialize(&text(TWO)), Ok(FqSerializable(Fq::from_u64(2))));
    let read = FrSerializable::deserialize(&text(R_MINUS_ONE)).unwrap();
    assert_eq!(as_text(&read.serialize()), R_MINUS_ONE);
    let read = FqSerializable::deserialize(&text(Q_MINUS_ONE)).unwrap();
    assert_eq!(as_text(&read.serialize()), Q_MINUS_ONE);
}

#[test]
fn scalar_out_of_the_field_is_refused() {
    assert_eq!(FrSerializable::deserialize(&text(R_TEXT)), Err(DeserializeError::HexValueTooLarge));
    assert_eq!(FqSerializable::deserialize(&text(Q_TEXT)), Err(DeserializeError::HexValueTooLarge));
    // the order of the scalar field is an element of the base field
    assert!(FqSerializable::deserialize(&text(R_TEXT)).is_ok());
    assert_eq!(
        FrSerializable::deserialize(&text(Q_MINUS_ONE)),
        Err(DeserializeError::HexValueTooLarge)
    );
    assert_eq!(
        FrSerializable::deserialize(&text(
            "0xffffffffffffffffffffffffffffffffffffffffffffffffffffffffffffffff"
        )),
        Err(DeserializeError::HexValueTooLarge)
    );
}

#[test]
fn scalar_that_is_not_written_in_full_is_refused() {
    for s in [
        "0x01",
        "0x00000000000000000000000000000000000000000000000000000000000001",
        "0x000000000000000000000000000000000000000000000000000000000000000001",
        "0x000000000000000000000000000000000000000000000000ABCDEF0123456789",
        "0x000000000000000000000000000000000000000000000000abcdef012345678A",
    ] {
        assert_eq!(FrSerializable::deserialize(&text(s)), Err(DeserializeError::HexValueTooLarge));
        assert_eq!(FqSerializable::deserialize(&text(s)), Err(DeserializeError::HexValueTooLarge));
    }
}

#[test]
fn scalar_that_is_no_hex_string_is_refused() {
    for s in [
        "",
        "0",
        "0x",
        "1x0000000000000000000000000000000000000000000000000000000000000001",
        "0X0000000000000000000000000000000000000000000000000000000000000001",
        "0000000000000000000000000000000000000000000000000000000000000001",
        "0x000000000000000000000000000000000000000000000000000000000000001",
        "0x000000000000000000000000000000000000000000000000000000000000000g",
        "0x00000000000000000000000000000000000000000000000000000000000000 1",
        "0x1",
        "0xzz",
        "0\u{e9}00",
        "0x\u{e9}\u{e9}",
        "\u{e9}",
    ] {
        assert_eq!(FrSerializable::deserialize(&text(s)), Err(DeserializeError::InvalidHexString));
        assert_eq!(FqSerializable::deserialize(&text(s)), Err(DeserializeError::InvalidHexString));
    }
}

#[test]
fn scalar_must_be_a_string() {
    assert_eq!(
        FrSerializable::deserialize(&Json::array(vec![text(ONE)])),
        Err(DeserializeError::InvalidType)
    );
    assert_eq!(
        FqSerializable::deserialize(&object(vec![("x", text(ONE))])),
        Err(DeserializeError::InvalidType)
    );
}

#[test]
fn extension_element_is_written_with_c1_first() {
    let v = Fq2::new(Fq::from_u64(1), Fq::from_u64(2));
    let written = Fq2Serializable(v).serialize();
    let items = written.as_array().unwrap();
    assert_eq!(items.len(), 2);
    assert_eq!(as_text(&items[0]), TWO);
    assert_eq!(as_text(&items[1]), ONE);
    assert_eq!(FqSerializable::deserialize(&items[0]), Ok(FqSerializable(v.c1)));
    assert_eq!(FqSerializable::deserialize(&items[1]), Ok(FqSerializable(v.c0)));
}

#[test]
fn extension_element_is_read_with_c1_first() {
    let read = Fq2Serializable::deserialize(&Json::array(vec![text(TWO), text(ONE)])).unwrap();
    assert_eq!(read.0.c1, Fq::from_u64(2));
    assert_eq!(read.0.c0, Fq::from_u64(1));
    assert_eq!(read, Fq2Serializable(Fq2::new(Fq::from_u64(1), Fq::from_u64(2))));
}

#[test]
fn extension_element_of_the_wrong_length_is_refused() {
    assert_eq!(
        Fq2Serializable::deserialize(&Json::array(vec![])),
        Err(DeserializeError::InvalidLength(0))
    );
    assert_eq!(
        Fq2Serializable::deserialize(&Json::array(vec![text(ONE)])),
        Err(DeserializeError::InvalidLength(1))
    );
    assert_eq!(
        Fq2Serializable::deserialize(&Json::array(vec![text(ONE), text(ONE), text(ONE)])),
        Err(DeserializeError::InvalidLength(3))
    );
    // an item that is there is read first
    assert_eq!(
        Fq2Serializable::deserialize(&Json::array(vec![text("0x")])),
        Err(DeserializeError::InvalidHexString)
    );
    assert_eq!(
        Fq2Serializable::deserialize(&Json::array(vec![text(ONE), text(Q_TEXT), text(ONE)])),
        Err(DeserializeError::HexValueTooLarge)
    );
    assert_eq!(Fq2Serializable::deserialize(&text(ONE)), Err(DeserializeError::InvalidType));
}

#[test]
fn point_is_written_as_x_and_y() {
    let written = G1AffineSerializable(g1_of(1, 2)).serialize();
    assert!(same(&written, &object(vec![("x", text(ONE)), ("y", text(TWO))])));
    let written = G2AffineSerializable(g2_of(1, 2, 0, 1)).serialize();
    let expected = object(vec![
        ("x", Json::array(vec![text(TWO), text(ONE)])),
        ("y", Json::array(vec![text(ONE), text(ZERO)])),
    ]);
    assert!(same(&written, &expected));
}

#[test]
fn point_is_read_in_either_order() {
    let p = G1AffineSerializable(g1_of(1, 2));
    assert_eq!(
        G1AffineSerializable::deserialize(&object(vec![("x", text(ONE)), ("y", text(TWO))])),
        Ok(p)
    );
    assert_eq!(
        G1AffineSerializable::deserialize(&object(vec![("y", text(TWO)), ("x", text(ONE))])),
        Ok(p)
    );
    let q = G2AffineSerializable(g2_of(1, 2, 0, 1));
    let x = Json::array(vec![text(TWO), text(ONE)]);
    let y = Json::array(vec![text(ONE), text(ZERO)]);
    assert_eq!(G2AffineSerializable::deserialize(&object(vec![("y", y), ("x", x)])), Ok(q));
}

#[test]
fn point_with_a_wrong_field_is_refused() {
    let read = |members| G1AffineSerializable::deserialize(&object(members));
    assert_eq!(read(vec![]), Err(DeserializeError::MissingField(Field::X)));
    assert_eq!(read(vec![("x", text(ONE))]), Err(DeserializeError::MissingField(Field::Y)));
    assert_eq!(read(vec![("y", text(ONE))]), Err(DeserializeError::MissingField(Field::X)));
    assert_eq!(
        read(vec![("x", text(ONE)), ("x", text(ONE))]),
        Err(DeserializeError::DuplicateField(Field::X))
    );
    assert_eq!(
        read(vec![("y", text(ONE)), ("x", text(ONE)), ("y", text(TWO))]),
        Err(DeserializeError::DuplicateField(Field::Y))
    );
    assert_eq!(
        read(vec![("x", text(ONE)), ("z", text(ONE)), ("y", text(ONE))]),
        Err(DeserializeError::UnknownField)
    );
    assert_eq!(read(vec![("X", text(ONE)), ("y", text(ONE))]), Err(DeserializeError::UnknownField));
    assert_eq!(
        read(vec![("x", text("0x")), ("x", text(ONE))]),
        Err(DeserializeError::InvalidHexString)
    );
    assert_eq!(
        read(vec![("x", text(ONE)), ("y", text(Q_TEXT))]),
        Err(DeserializeError::HexValueTooLarge)
    );
    assert_eq!(
        read(vec![("x", text(ONE)), ("y", Json::array(vec![]))]),
        Err(DeserializeError::InvalidType)
    );
    assert_eq!(
        G1AffineSerializable::deserialize(&Json::array(vec![text(ONE), text(TWO)])),
        Err(DeserializeError::InvalidType)
    );
    assert_eq!(
        G2AffineSerializable::deserialize(&object(vec![("x", text(ONE))])),
        Err(DeserializeError::InvalidType)
    );
    assert_eq!(
        G2AffineSerializable::deserialize(&object(vec![(
            "x",
            Json::array(vec![text(ONE), text(ONE)])
        )])),
        Err(DeserializeError::MissingField(Field::Y))
    );
}

#[test]
fn generators_survive_the_wire() {
    let pairing_config = PairingConfig::new();
    let g = G1AffineSerializable::from(pairing_config.g);
    assert_eq!(G1AffineSerializable::deserialize(&g.serialize()), Ok(g));
    let h = G2AffineSerializable::from(pairing_config.h);
    let written = h.serialize();
    assert_eq!(G2AffineSerializable::deserialize(&written), Ok(h));
    let x = written.as_object().unwrap()[0].value.as_array().unwrap();
    assert_eq!(
        as_text(&x[0]),
        "0x198e9393920d483a7260bfb731fb5d25f1aa493335a9e71297e485b7aef312c2"
    );
    assert_eq!(
        as_text(&x[1]),
        "0x1800deef121f1e76426a00665e5c4479674322d4f75edadd46debd5cd992f6ed"
    );
    let back: G2Affine = h.into();
    assert_eq!(back, pairing_config.h);
}

#[test]
fn dealt_values_survive_the_wire() {
    let pairing_config = PairingConfig::new();
    let (sks, pks) = gen_keys(&pairing_config, 4);
    let config = PVSSConfig::new(pairing_config, pks.clone(), 2);
    let (ciphertext, secrets) = distribute_secret(&config).unwrap();

    let written = ciphertext.serialize();
    assert_eq!(names(&written), vec!["f_i", "a_i", "y_i"]);
    let read = PVSSCiphertext::deserialize(&written).unwrap();
    assert_eq!(read.f_i, ciphertext.f_i);
    assert_eq!(read.a_i, ciphertext.a_i);
    assert_eq!(read.y_i, ciphertext.y_i);
    assert!(same(&read.serialize(), &written));

    let written = secrets.serialize();
    assert_eq!(names(&written), vec!["f_0", "h_f_0"]);
    assert_eq!(PVSSSecrets::deserialize(&written), Ok(secrets));
    assert!(same(&PVSSSecrets::deserialize(&written).unwrap().serialize(), &written));

    for sk in sks {
        let written = FrSerializable::from(sk).serialize();
        let read = FrSerializable::deserialize(&written).unwrap();
        assert_eq!(Fr::from(read), sk);
        assert!(same(&read.serialize(), &written));
    }
    for pk in pks {
        let written = G2AffineSerializable(pk).serialize();
        assert_eq!(G2AffineSerializable::deserialize(&written), Ok(G2AffineSerializable(pk)));
    }
}

#[test]
fn ciphertext_names_are_read_in_either_case() {
    let f = Json::array(vec![G1AffineSerializable(g1_of(1, 2)).serialize()]);
    let a = Json::array(vec![
        G1AffineSerializable(g1_of(3, 4)).serialize(),
        G1AffineSerializable(g1_of(5, 6)).serialize(),
    ]);
    let y = Json::array(vec![G2AffineSerializable(g2_of(1, 2, 3, 4)).serialize()]);
    let read = PVSSCiphertext::deserialize(&object(vec![("Y_i", y), ("f_i", f), ("A_I", a)])).unwrap();
    assert_eq!(read.f_i, vec![g1_of(1, 2)]);
    assert_eq!(read.a_i, vec![g1_of(3, 4), g1_of(5, 6)]);
    assert_eq!(read.y_i, vec![g2_of(1, 2, 3, 4)]);
    assert_eq!(names(&read.serialize()), vec!["f_i", "a_i", "y_i"]);
}

#[test]
fn ciphertext_with_a_wrong_field_is_refused() {
    let list = || Json::array(vec![]);
    let read = |members| PVSSCiphertext::deserialize(&object(members)).map(|_| ());
    assert_eq!(read(vec![("f_i", list()), ("a_i", list()), ("y_i", list())]), Ok(()));
    assert_eq!(read(vec![]), Err(DeserializeError::MissingField(Field::Fi)));
    assert_eq!(read(vec![("f_i", list())]), Err(DeserializeError::MissingField(Field::Ai)));
    assert_eq!(
        read(vec![("a_i", list()), ("f_i", list())]),
        Err(DeserializeError::MissingField(Field::Yi))
    );
    assert_eq!(
        read(vec![("f_i", list()), ("F_i", list())]),
        Err(DeserializeError::DuplicateField(Field::Fi))
    );
    assert_eq!(
        read(vec![("a_i", list()), ("a_i", list())]),
        Err(DeserializeError::DuplicateField(Field::Ai))
    );
    assert_eq!(
        read(vec![("y_i", list()), ("Y_I", list())]),
        Err(DeserializeError::DuplicateField(Field::Yi))
    );
    assert_eq!(read(vec![("f_i", list()), ("u_2", list())]), Err(DeserializeError::UnknownField));
    assert_eq!(
        read(vec![("f_i", list()), ("\u{e9}_i", list())]),
        Err(DeserializeError::UnknownField)
    );
    assert_eq!(read(vec![("f_i", text(ONE))]), Err(DeserializeError::InvalidType));
    assert_eq!(
        read(vec![("y_i", Json::array(vec![G1AffineSerializable(g1_of(1, 2)).serialize()]))]),
        Err(DeserializeError::InvalidType)
    );
    assert_eq!(
        read(vec![("a_i", Json::array(vec![object(vec![("x", text(ONE))])]))]),
        Err(DeserializeError::MissingField(Field::Y))
    );
    assert_eq!(PVSSCiphertext::deserialize(&list()).map(|_| ()), Err(DeserializeError::InvalidType));
}

#[test]
fn secrets_with_a_wrong_field_is_refused() {
    let h = || G2AffineSerializable(g2_of(1, 2, 3, 4)).serialize();
    let read = |members| PVSSSecrets::deserialize(&object(members));
    assert_eq!(
        read(vec![("h_f_0", h()), ("f_0", text(TWO))]),
        Ok(PVSSSecrets { f_0: Fr::from_u64(2), h_f_0: g2_of(1, 2, 3, 4) })
    );
    assert_eq!(read(vec![("h_f_0", h())]), Err(DeserializeError::MissingField(Field::F0)));
    assert_eq!(read(vec![("f_0", text(TWO))]), Err(DeserializeError::MissingField(Field::HF0)));
    assert_eq!(
        read(vec![("f_0", text(TWO)), ("f_0", text(TWO))]),
        Err(DeserializeError::DuplicateField(Field::F0))
    );
    assert_eq!(
        read(vec![("h_f_0", h()), ("h_f_0", h())]),
        Err(DeserializeError::DuplicateField(Field::HF0))
    );
    assert_eq!(read(vec![("F_0", text(TWO))]), Err(DeserializeError::UnknownField));
    assert_eq!(read(vec![("f_0", text(R_TEXT))]), Err(DeserializeError::HexValueTooLarge));
}

#[test]
fn wire_wrappers_hold_what_they_are_given() {
    let x = Fr::from_u64(9);
    assert_eq!(FrSerializable::from(x).0, x);
    assert_eq!(Fr::from(FrSerializable(x)), x);
    let y = Fq::from_u64(9);
    assert_eq!(FqSerializable::from(y).0, y);
    assert_eq!(Fq::from(FqSerializable(y)), y);
    let z = Fq2::new(y, Fq::zero());
    assert_eq!(Fq2Serializable::from(z).0, z);
    assert_eq!(Fq2::from(Fq2Serializable(z)), z);
    let p = g1_of(1, 2);
    assert_eq!(G1AffineSerializable::from(p).0, p);
    assert_eq!(G1Affine::from(G1AffineSerializable(p)), p);
    let q = g2_of(1, 2, 3, 4);
    assert_eq!(G2AffineSerializable::from(q).0, q);
    assert_eq!(G2Affine::from(G2AffineSerializable(q)), q);
}

#[test]
fn tree_accessors() {
    let s = text("a");
    assert!(s.as_string().is_some() && s.as_array().is_none() && s.as_object().is_none());
    let a = Json::array(vec![text("a"), text("b")]);
    assert!(a.as_string().is_none() && a.as_object().is_none());
    assert_eq!(a.as_array().unwrap().len(), 2);
    let o = object(vec![("k", text("v"))]);
    assert!(o.as_string().is_none() && o.as_array().is_none());
    assert_eq!(o.as_object().unwrap()[0].name, "k");
}

#[test]
fn wire_error_messages() {
    assert_eq!(DeserializeError::InvalidType.message(), "Invalid type");
    assert_eq!(DeserializeError::InvalidHexString.message(), "Invalid hex string");
    assert_eq!(DeserializeError::HexValueTooLarge.message(), "Hex value too large");
    assert_eq!(DeserializeError::InvalidLength(3).message(), "Invalid length");
    assert_eq!(DeserializeError::UnknownField.message(), "Unknown field");
    assert_eq!(DeserializeError::DuplicateField(Field::X).message(), "Duplicate field x");
    assert_eq!(DeserializeError::MissingField(Field::HF0).message(), "Missing field h_f_0");
    let all = [Field::X, Field::Y, Field::Fi, Field::Ai, Field::Yi, Field::F0, Field::HF0];
    let names = all.iter().map(|f| f.name()).collect::<Vec<_>>();
    assert_eq!(names, vec!["x", "y", "f_i", "a_i", "y_i", "f_0", "h_f_0"]);
}
