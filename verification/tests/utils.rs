use calzone::cxx::{Error, ErrorType};
use calzone::utils::error::{variant_error, variant_explain, ExceptionKind};
use calzone::utils::extract::{Extractor, KeyError, Property, PropertyDefault, Tag};
use calzone::utils::io::{dump_stl, load_stl, StlError};
use calzone::utils::numpy::{
    check_size, try_shape, try_size, ArrayLayout, NumpyError, PyArrayFlags, ShapeArg,
    C_CONTIGUOUS, WRITEABLE,
};
use calzone::utils::text::{decimal, rsplit_once, split, split_once, str_less};

#[test]
fn stl_roundtrip() {
    let coords: Vec<u32> = (0..18).map(|i| (1.5_f32 * i as f32).to_bits()).collect();
    let bytes = dump_stl(&coords);
    assert_eq!(bytes.len(), 84 + 2 * 50);
    assert!(bytes[..80].iter().all(|b| *b == 0));
    assert_eq!(&bytes[80..84], &[2, 0, 0, 0]);
    assert_eq!(&bytes[84..96], &[0; 12]);
    assert_eq!(&bytes[96..100], &coords[0].to_le_bytes());
    assert_eq!(&bytes[132..134], &[0, 0]);
    assert_eq!(load_stl(&bytes).ok().unwrap(), coords);
}

#[test]
fn stl_partial_facet_left_out() {
    let coords: Vec<u32> = (1..=10).collect();
    let bytes = dump_stl(&coords);
    assert_eq!(bytes.len(), 134);
    assert_eq!(load_stl(&bytes).ok().unwrap(), (1..=9).collect::<Vec<u32>>());
}

#[test]
fn stl_bad_format() {
    assert_eq!(load_stl(&[0u8; 83]).unwrap_err(), StlError::BadFormat);
    let mut bytes = vec![0u8; 84 + 49];
    bytes[80] = 1;
    assert_eq!(load_stl(&bytes).unwrap_err(), StlError::BadFormat);
    let bytes = vec![0u8; 84];
    assert_eq!(load_stl(&bytes).ok().unwrap(), Vec::<u32>::new());
}

#[test]
fn stl_values() {
    let mut bytes = vec![0u8; 84 + 50];
    bytes[80] = 1;
    bytes[96] = 0x01;
    bytes[97] = 0x02;
    bytes[98] = 0x03;
    bytes[99] = 0x04;
    let coords = load_stl(&bytes).ok().unwrap();
    assert_eq!(coords.len(), 9);
    assert_eq!(coords[0], 0x04030201);
}

#[test]
fn numpy_offsets() {
    let layout = ArrayLayout { shape: vec![2, 3], strides: vec![24, 8], flags: C_CONTIGUOUS };
    assert_eq!(layout.ndim(), 2);
    assert_eq!(layout.size(), 6);
    assert_eq!(layout.offset_of(0), 0);
    assert_eq!(layout.offset_of(4), 24 + 8);
    assert_eq!(layout.data(5).ok(), Some(24 + 16));
    match layout.data(6) {
        Err(e) => {
            assert_eq!(e, NumpyError::IndexOutOfRange { size: 6, index: 6 });
            assert_eq!(e.message(), "ndarray index out of range (expected an index in [0, 6), found 6)");
        },
        Ok(_) => panic!("expected an index error"),
    }
    let layout = ArrayLayout { shape: vec![3], strides: vec![-8], flags: 0 };
    assert_eq!(layout.offset_of(2), -16);
    let scalar = ArrayLayout { shape: vec![], strides: vec![], flags: 0 };
    assert_eq!(scalar.size(), 1);
    assert_eq!(scalar.offset_of(0), 0);
}

#[test]
fn numpy_flags() {
    let mut layout = ArrayLayout {
        shape: vec![1],
        strides: vec![8],
        flags: PyArrayFlags::ReadWrite.bits(),
    };
    assert_eq!(layout.flags, 0x0401);
    assert!(layout.is_contiguous().is_ok());
    assert!(layout.is_writeable().is_ok());
    layout.readonly();
    assert_eq!(layout.flags, 0x0001);
    assert_eq!(layout.is_writeable().unwrap_err().message(), "assignment destination is read-only");
    assert_eq!(PyArrayFlags::ReadOnly.bits(), C_CONTIGUOUS);
    assert_eq!(WRITEABLE, 0x0400);
    let layout = ArrayLayout { shape: vec![1], strides: vec![8], flags: 0 };
    assert_eq!(layout.is_contiguous().unwrap_err().message(), "memory is not C-contiguous");
}

#[test]
fn numpy_shapes() {
    assert_eq!(try_shape(&[2, 3]).ok(), Some((2, vec![2, 3])));
    let e = try_shape(&[2, usize::MAX]).unwrap_err();
    assert_eq!(e, NumpyError::BadSize(usize::MAX));
    assert_eq!(e.message(), format!("bad npy_intp value ({})", usize::MAX));
    assert_eq!(try_size(7).ok(), Some(7));
    assert!(check_size(&[2, 3], 6).is_ok());
    let e = check_size(&[2, 3], 5).unwrap_err();
    assert_eq!(e.message(), "bad ndarray size (expected 5, found 6)");
    assert_eq!(NumpyError::BadDimensions(12).message(), "bad i32 value (12)");
    assert_eq!(ShapeArg::Scalar(4).into_vec(), vec![4]);
    assert_eq!(ShapeArg::Vector(vec![1, 2]).into_vec(), vec![1, 2]);
}

#[test]
fn tag_messages() {
    let tag = Tag::new("geometry", "", None);
    assert_eq!(tag.bad().message(), "bad geometry");
    let tag = Tag::new("volume", "World", Some("geometry.toml"));
    assert_eq!(tag.file_prefix(), "geometry.toml: ");
    assert_eq!(tag.bad().message(), "geometry.toml: bad 'World' volume");
    let inner = tag.extend("Detector", None, None);
    assert_eq!(inner.path(), "World.Detector");
    assert_eq!(inner.name(), "Detector");
    assert_eq!(inner.file(), Some("geometry.toml"));
    assert_eq!(
        inner.bad().what("overlap").why("undefined 'X' volume".to_string()).message(),
        "geometry.toml: bad overlap for 'World.Detector' volume (undefined 'X' volume)"
    );
    let shape = inner.extend("box", Some("shape"), Some("other.toml"));
    assert_eq!(shape.path(), "World.Detector.box");
    assert_eq!(shape.bad().why("negative size".to_string()).message(), "other.toml: bad 'World.Detector.box' shape (negative size)");
    let top = Tag::new("", "", None).extend("World", Some("volume"), None);
    assert_eq!(top.path(), "World");
    assert_eq!(top.cast("box").bad().what("size").message(), "bad size for 'World' box");
    assert_eq!(top.bad_type(), "bad volume");
}

#[test]
fn engine_errors() {
    let e = Error { tp: ErrorType::NoError, message: String::new() };
    assert_eq!(e.value(), None);
    assert!(e.to_result().is_ok());
    let e = Error { tp: ErrorType::ValueError, message: "bad value".to_string() };
    assert_eq!(e.value(), Some("bad value"));
    assert_eq!(e.to_result().unwrap_err(), (ExceptionKind::ValueError, "bad value".to_string()));
    let e = Error { tp: ErrorType::KeyboardInterrupt, message: String::new() };
    assert_eq!(e.value(), Some("Ctrl+C catched"));
    let e = Error { tp: ErrorType::MemoryError, message: String::new() };
    assert_eq!(e.to_result().unwrap_err(), (ExceptionKind::MemoryError, "could not allocate memory".to_string()));
    let e = Error { tp: ErrorType::FileNotFoundError, message: "no file".to_string() };
    assert_eq!(e.to_result().unwrap_err().0, ExceptionKind::FileNotFoundError);
}

#[test]
fn variant_messages() {
    assert_eq!(variant_explain("x", &["a"]), "expected one of 'a', found 'x'");
    assert_eq!(variant_explain("x", &["a", "b"]), "expected one of 'a' or 'b', found 'x'");
    assert_eq!(variant_explain("x", &["a", "b", "c"]), "expected one of 'a', 'b' or 'c', found 'x'");
    assert_eq!(variant_error("bad mode", "x", &["a", "b"]), "bad mode (expected one of 'a' or 'b', found 'x')");
}

#[test]
fn text_helpers() {
    assert_eq!(decimal(0), "0");
    assert_eq!(decimal(1234567890), "1234567890");
    assert_eq!(split("World.A.B", '.'), vec!["World", "A", "B"]);
    assert_eq!(split("", '.'), vec![""]);
    assert_eq!(split("A..", '.'), vec!["A", "", ""]);
    assert_eq!(split_once("catch_all_x", '_'), Some(("catch", "all_x")));
    assert_eq!(rsplit_once("World.A.B", '.'), Some(("World.A", "B")));
    assert_eq!(rsplit_once("World", '.'), None);
    assert!(str_less("A", "B"));
    assert!(str_less("A", "AB"));
    assert!(!str_less("B", "AB"));
    assert!(!str_less("A", "A"));
}

fn shape_extractor() -> Extractor {
    let property = |name: &str, default| Property { name: name.to_string(), default };
    Extractor {
        properties: vec![
            property("size", PropertyDefault::Required),
            property("position", PropertyDefault::Optional),
            property("material", PropertyDefault::Value),
        ],
    }
}

#[test]
fn keys_read_as_properties() {
    let extractor = shape_extractor();
    let (plan, stop) = extractor.extract(&["material", "size"], false);
    assert!(stop.is_none());
    assert_eq!(plan.uses, vec![Some(2), Some(0)]);
    assert_eq!(plan.given, vec![Some(1), None, Some(0)]);
    assert!(PropertyDefault::Required.is_required());
    assert!(!PropertyDefault::Value.is_required());
}

#[test]
fn keys_unknown_or_missing() {
    let extractor = shape_extractor();
    // The first key that gives no property stops the reading.
    let (plan, stop) = extractor.extract(&["size", "Daughter", "colour"], false);
    assert_eq!(plan.uses, vec![Some(0), None, None]);
    match stop {
        Some(e) => {
            assert!(matches!(&e, KeyError::Unknown { position: 1, key } if key == "Daughter"));
            let tag = Tag::new("volume", "World", None);
            assert_eq!(tag.bad().why(e.why()).message(), "bad 'World' volume (unknown property 'Daughter')");
        },
        None => panic!("expected an unknown key"),
    }
    // Where the other keys are kept, a required property not given stops it.
    let (plan, stop) = extractor.extract(&["Daughter", "material"], true);
    assert_eq!(plan.uses, vec![None, Some(2)]);
    match stop {
        Some(e) => {
            assert!(matches!(&e, KeyError::Missing { property: 0, name } if name == "size"));
            assert_eq!(e.why(), "missing 'size' property");
        },
        None => panic!("expected a missing property"),
    }
    let (_, stop) = extractor.extract(&["Daughter", "size"], true);
    assert!(stop.is_none());
}
