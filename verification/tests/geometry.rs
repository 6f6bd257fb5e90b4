use calzone::cxx::{Action, DaughterInfo, G4State, Roles, ShapeType, TSTAlgorithm, VolumeInfo};
use calzone::geometry::materials::{material_state, MaterialsDefinition, State};
use calzone::geometry::volume::{
    check, envelope_shape, flatten_overlaps, is_volume_key, select_shape, shape_from_str, shape_to_str, tessellation_source, assemble_volume, DefinitionError,
    DefinitionValue, VolumeDefinition,
    TessellationError, TessellationSource,
    NameError, OverlapError, ShapeKeyError, Volume,
};
use calzone::geometry::{
    Algorithm, BuilderError, GeometryBuilder, GeometryDefinition, GeometryError, SolidProperties, VolumeError,
};

type V = Volume<u8, (i32, i32, i32), u8>;
type Builder = GeometryBuilder<u8, (i32, i32, i32), u8, String, String, String>;
type Definition = GeometryDefinition<u8, (i32, i32, i32), u8, String, String, String>;

fn vol(name: &str, volumes: Vec<V>) -> V {
    Volume {
        name: name.to_string(),
        material: "G4_AIR".to_string(),
        shape: 0,
        position: None,
        rotation: None,
        volumes,
        overlaps: vec![],
        roles: Roles::default(),
        subtract: vec![],
    }
}

fn world() -> Builder {
    let root = vol("World", vec![
        vol("A", vec![vol("B", vec![])]),
        vol("C", vec![vol("E", vec![])]),
    ]);
    GeometryBuilder::new(GeometryDefinition { volume: root, materials: None })
}

fn names(v: &V) -> Vec<String> {
    v.volumes.iter().map(|v| v.name.clone()).collect()
}

fn unknown(r: Result<(), BuilderError>) -> String {
    match r {
        Err(BuilderError::UnknownVolume(path)) => path,
        _ => panic!("expected an unknown volume"),
    }
}

#[test]
fn builder_contains() {
    let b = world();
    assert!(b.contains("World"));
    assert!(b.contains("World.A"));
    assert!(b.contains("World.A.B"));
    assert!(b.contains("World.C.E"));
    assert!(!b.contains("World.B"));
    assert!(!b.contains("Earth"));
    assert!(!b.contains("World.A.B.C"));
    assert!(!b.contains(""));
    assert_eq!(b.algorithm, Algorithm::Bvh);
}

#[test]
fn builder_find_mut() {
    let mut b = world();
    let v = b.find_mut("World.A.B").ok().unwrap();
    v.material = "G4_WATER".to_string();
    assert_eq!(b.volume.volumes[0].volumes[0].material, "G4_WATER");
    match b.find_mut("World.A.X") {
        Err(BuilderError::UnknownVolume(path)) => assert_eq!(path, "World.A.X"),
        _ => panic!("expected an unknown volume"),
    }
}

#[test]
fn builder_delete() {
    let mut b = world();
    assert!(b.delete("World.A.B").is_ok());
    assert!(!b.contains("World.A.B"));
    assert!(b.contains("World.A"));
    assert_eq!(unknown(b.delete("World.X.B")), "World.X");
    assert_eq!(unknown(b.delete("World.Z")), "World.Z");
    assert_eq!(unknown(b.delete("Earth")), "Earth");
    match b.delete("World") {
        Err(BuilderError::DeleteRoot(path)) => assert_eq!(path, "World"),
        _ => panic!("expected a refused root deletion"),
    }
}

#[test]
fn builder_delete_all_namesakes() {
    let root = vol("World", vec![vol("A", vec![]), vol("C", vec![]), vol("A", vec![])]);
    let mut b: Builder = GeometryBuilder::new(GeometryDefinition { volume: root, materials: None });
    assert!(b.delete("World.A").is_ok());
    assert_eq!(names(&b.volume), vec!["C".to_string()]);
}

#[test]
fn builder_move_errors() {
    let mut b = world();
    match b.move_volume("World", "World.X") {
        Err(BuilderError::RelocateRoot(path)) => assert_eq!(path, "World"),
        _ => panic!("expected a refused root relocation"),
    }
    match b.move_volume("World.A", "Other") {
        Err(BuilderError::RelocateAsRoot(path)) => assert_eq!(path, "World.A"),
        _ => panic!("expected a refused relocation as root"),
    }
    match b.move_volume("World.A", "World.bad") {
        Err(BuilderError::BadName(name, why)) => {
            assert_eq!(name, "bad");
            assert_eq!(why, NameError::NotCapitalized);
            assert_eq!(why.why(), "should be capitalized");
        },
        _ => panic!("expected a refused name"),
    }
    assert_eq!(unknown(b.move_volume("World.A.B", "World.Q.B")), "World.Q");
    assert_eq!(unknown(b.move_volume("World.X.B", "World.C.B")), "World.X");
    assert_eq!(unknown(b.move_volume("World.A.X", "World.C.X")), "World.A.X");
    assert_eq!(unknown(b.move_volume("World.A.X", "World.A.Y")), "World.A.X");
    assert!(b.contains("World.A.B"));
}

#[test]
fn builder_move_rename() {
    let mut b = world();
    assert!(b.move_volume("World.A", "World.D").is_ok());
    assert!(b.contains("World.D.B"));
    assert!(!b.contains("World.A"));
}

#[test]
fn builder_move_relocate() {
    let mut b = world();
    b.volume.volumes[0].volumes[0].material = "G4_WATER".to_string();
    assert!(b.move_volume("World.A.B", "World.C.F").is_ok());
    assert!(!b.contains("World.A.B"));
    assert!(b.contains("World.C.F"));
    assert_eq!(names(&b.volume.volumes[1]), vec!["E".to_string(), "F".to_string()]);
    let moved = b.find_mut("World.C.F").ok().unwrap();
    assert_eq!(moved.name, "F");
    assert_eq!(moved.material, "G4_WATER");
}

#[test]
fn builder_move_onto_namesake() {
    // Relocated onto a daughter of the destination name, the volume replaces
    // it and keeps its own name.
    let mut b = world();
    assert!(b.move_volume("World.A.B", "World.C.E").is_ok());
    assert!(b.contains("World.C.B"));
    assert!(!b.contains("World.C.E"));
    assert!(b.volume.volumes[0].volumes.is_empty());
}

#[test]
fn builder_place() {
    let mut b = world();
    let mut materials = MaterialsDefinition {
        elements: vec!["H".to_string()],
        molecules: vec![],
        mixtures: vec![],
    };
    let def: Definition = GeometryDefinition { volume: vol("F", vec![]), materials: Some(materials) };
    assert!(b.place(def, Some("World.A"), Some((1, 2, 3)), None).is_ok());
    assert!(b.contains("World.A.F"));
    assert_eq!(b.volume.volumes[0].volumes[1].position, Some((1, 2, 3)));
    assert_eq!(b.materials.as_ref().unwrap().elements, vec!["H".to_string()]);

    materials = MaterialsDefinition { elements: vec!["O".to_string()], molecules: vec![], mixtures: vec![] };
    let mut replaced = vol("B", vec![]);
    replaced.material = "G4_Pb".to_string();
    let def: Definition = GeometryDefinition { volume: replaced, materials: Some(materials) };
    assert!(b.place(def, Some("World.A"), None, Some(7)).is_ok());
    assert_eq!(names(&b.volume.volumes[0]), vec!["B".to_string(), "F".to_string()]);
    assert_eq!(b.volume.volumes[0].volumes[0].material, "G4_Pb");
    assert_eq!(b.volume.volumes[0].volumes[0].rotation, Some(7));
    assert_eq!(b.materials.as_ref().unwrap().elements, vec!["H".to_string(), "O".to_string()]);

    let def: Definition = GeometryDefinition { volume: vol("G", vec![]), materials: None };
    assert!(b.place(def, None, None, None).is_ok());
    assert_eq!(names(&b.volume), vec!["A".to_string(), "C".to_string(), "G".to_string()]);

    let def: Definition = GeometryDefinition { volume: vol("H", vec![]), materials: None };
    assert_eq!(unknown(b.place(def, Some("World.Q"), None, None)), "World.Q");
}

#[test]
fn builder_modify() {
    let root = vol("World", vec![vol("A", vec![vol("B", vec![]), vol("C", vec![])])]);
    let mut b: Builder = GeometryBuilder::new(GeometryDefinition { volume: root, materials: None });
    let overlaps = vec![("C".to_string(), vec!["B".to_string()]), ("B".to_string(), vec!["C".to_string()])];
    let r = b.modify(
        "World.A",
        Some("G4_WATER".to_string()),
        Some(overlaps),
        Some((0, 0, 1)),
        Some(vec!["catch_ingoing".to_string()]),
        None,
        Some(3),
        Some(vec!["B".to_string()]),
    );
    assert!(r.is_ok());
    let a = &b.volume.volumes[0];
    assert_eq!(a.material, "G4_WATER");
    assert_eq!(a.overlaps, vec![("B".to_string(), "C".to_string())]);
    assert_eq!(a.position, Some((0, 0, 1)));
    assert_eq!(a.roles.ingoing, Action::Catch);
    assert_eq!(a.roles.outgoing, Action::NoAction);
    assert_eq!(a.shape, 3);
    assert_eq!(a.subtract, vec!["B".to_string()]);
    assert!(b.contains("World.A.B"));
    assert!(b.contains("World.A.C"));
}

#[test]
fn builder_modify_stops_at_refusal() {
    let root = vol("World", vec![vol("A", vec![vol("B", vec![])])]);
    let mut b: Builder = GeometryBuilder::new(GeometryDefinition { volume: root, materials: None });
    let overlaps = vec![("B".to_string(), vec!["Z".to_string()])];
    let r = b.modify("World.A", Some("G4_Pb".to_string()), Some(overlaps), Some((1, 1, 1)), None, None, None, None);
    match r {
        Err(BuilderError::BadOverlap(OverlapError::Undefined(name))) => assert_eq!(name, "Z"),
        _ => panic!("expected a refused overlap"),
    }
    // The material was changed before the overlaps were refused.
    assert_eq!(b.volume.volumes[0].material, "G4_Pb");
    assert_eq!(b.volume.volumes[0].position, None);

    let r = b.modify("World.A", None, None, Some((2, 2, 2)), Some(vec!["hold_all".to_string()]), None, Some(9), None);
    match r {
        Err(BuilderError::BadRole(why)) => assert_eq!(
            why,
            "unknown verb: expected one of 'catch', 'kill' or 'record', found 'hold'"
        ),
        _ => panic!("expected a refused role"),
    }
    assert_eq!(b.volume.volumes[0].position, Some((2, 2, 2)));
    assert_eq!(b.volume.volumes[0].shape, 0);
    assert_eq!(unknown(b.modify("World.X", None, None, None, None, None, None, None)), "World.X");
}

#[test]
fn volume_names() {
    assert!(check("Detector1").is_ok());
    assert_eq!(check("detector").unwrap_err(), NameError::NotCapitalized);
    assert_eq!(check("").unwrap_err(), NameError::Empty);
    assert_eq!(check("De-tector").unwrap_err(), NameError::NotAlphanumeric);
    assert_eq!(check("De.tector").unwrap_err(), NameError::NotAlphanumeric);
    assert_eq!(NameError::Empty.why(), "empty string");
    assert_eq!(NameError::NotAlphanumeric.why(), "expected an alphanumeric string");
    assert!(is_volume_key("Daughter"));
    assert!(!is_volume_key("box"));
    assert!(!is_volume_key(""));
}

#[test]
fn overlaps_flattened() {
    let mut displaced = vol("D", vec![]);
    displaced.position = Some((1, 0, 0));
    let volumes = vec![vol("B", vec![]), vol("A", vec![]), vol("C", vec![]), displaced];
    let overlaps = vec![
        ("C".to_string(), vec!["A".to_string(), "B".to_string()]),
        ("A".to_string(), vec!["C".to_string()]),
        ("B".to_string(), vec![]),
    ];
    let flat = flatten_overlaps(&overlaps, &volumes).ok().unwrap();
    assert_eq!(flat, vec![
        ("A".to_string(), "C".to_string()),
        ("B".to_string(), "C".to_string()),
    ]);

    let overlaps = vec![("A".to_string(), vec!["D".to_string(), "Z".to_string()])];
    match flatten_overlaps(&overlaps, &volumes) {
        Err(e) => {
            assert!(matches!(e, OverlapError::Displaced(_)));
            assert_eq!(e.why(), "displaced 'D' volume");
        },
        Ok(_) => panic!("expected a refused overlap"),
    }
    let overlaps = vec![("Z".to_string(), vec!["D".to_string()])];
    match flatten_overlaps(&overlaps, &volumes) {
        Err(e) => assert_eq!(e.why(), "undefined 'Z' volume"),
        Ok(_) => panic!("expected a refused overlap"),
    }
}

#[test]
fn shapes_selected() {
    assert!(matches!(select_shape(&["box"]), Ok(ShapeType::Box)));
    assert!(matches!(select_shape(&["tessellation"]), Ok(ShapeType::Tessellation)));
    match select_shape(&[]) {
        Err(e) => {
            assert!(matches!(&e, ShapeKeyError::Unknown(s) if s == "None"));
            assert_eq!(
                e.message("bad 'World' volume"),
                "bad 'World' volume (expected one of 'box', 'cylinder', 'envelope', 'sphere' or 'tessellation', found 'None')"
            );
        },
        Ok(_) => panic!("expected a refused shape"),
    }
    match select_shape(&["box", "sphere"]) {
        Err(e) => assert_eq!(
            e.message("bad 'World' volume"),
            "bad 'World' volume (multiple shape definitions (box, sphere, ...))"
        ),
        Ok(_) => panic!("expected a refused shape"),
    }
    assert!(matches!(select_shape(&["box", "cube"]), Err(ShapeKeyError::Unknown(s)) if s == "cube"));
    assert!(matches!(select_shape(&["cube", "box"]), Err(ShapeKeyError::Unknown(s)) if s == "cube"));
    assert!(matches!(envelope_shape("cylinder"), Ok(ShapeType::Cylinder)));
    assert_eq!(envelope_shape("envelope").unwrap_err(), vec!["box", "cylinder", "sphere"]);
    assert!(shape_from_str("Box").is_err());
    assert_eq!(shape_to_str(ShapeType::Tessellation), "tessellation");
    assert!(matches!(shape_from_str(shape_to_str(ShapeType::Sphere)), Ok(ShapeType::Sphere)));
}

#[test]
fn algorithms_and_states() {
    assert_eq!(Algorithm::from_str("geant4").ok(), Some(Algorithm::Geant4));
    assert_eq!(Algorithm::from_str("fast").unwrap_err(), vec!["bvh", "geant4"]);
    assert_eq!(Algorithm::Bvh.to_str(), "bvh");
    assert_eq!(Algorithm::Geant4.into_ffi(), TSTAlgorithm::Geant4);
    assert_eq!(State::from_str("liquid").ok(), Some(State::Liquid));
    assert_eq!(material_state(None).ok(), Some(G4State::kStateUndefined));
    assert_eq!(material_state(Some("gas")).ok(), Some(G4State::kStateGas));
    assert_eq!(material_state(Some("plasma")).unwrap_err(), vec!["gas", "liquid", "solid"]);
}

#[test]
fn volume_proxy() {
    let info = VolumeInfo {
        path: "World.Detector".to_string(),
        material: "G4_WATER".to_string(),
        solid: "G4Box".to_string(),
        mother: "World".to_string(),
        daughters: vec![
            DaughterInfo { path: "World.Detector.A".to_string(), solid: "G4Orb".to_string() },
            DaughterInfo { path: "World.Detector.B".to_string(), solid: "G4TessellatedSolid".to_string() },
        ],
    };
    let v = calzone::geometry::Volume::new(info);
    assert_eq!(v.get_name(), "Detector");
    assert_eq!(v.dump_path(None), "detector.gdml");
    assert_eq!(v.dump_path(Some("out.gdml".to_string())), "out.gdml");
    assert_eq!(v.mother.as_deref(), Some("World"));
    assert_eq!(v.daughters, vec!["World.Detector.A".to_string(), "World.Detector.B".to_string()]);
    assert!(v.properties.has_cubic_volume);
    assert!(!v.properties.has_exclusive_volume);
    assert!(v.check_surface_area().is_ok());
    assert!(matches!(v.check_volume(Some(true)), Ok(true)));
    match v.check_volume(None) {
        Err(e) => assert_eq!(e.why(), "not implemented for daughter volume(s)"),
        Ok(_) => panic!("expected a refused volume"),
    }

    let info = VolumeInfo {
        path: "World".to_string(),
        material: "G4_AIR".to_string(),
        solid: "G4Trd".to_string(),
        mother: "".to_string(),
        daughters: vec![],
    };
    let v = calzone::geometry::Volume::new(info);
    assert_eq!(v.get_name(), "World");
    assert_eq!(v.mother, None);
    assert_eq!(v.properties, SolidProperties::nothing());
    match v.check_surface_area() {
        Err(e) => assert_eq!(e.why(), "not implemented for 'G4Trd'"),
        Ok(_) => panic!("expected a refused area"),
    }
    assert!(matches!(v.check_volume(Some(true)), Err(VolumeError::Solid(_))));
    assert_eq!(SolidProperties::everything().has_surface_generation, true);
}

#[test]
fn tessellation_sources() {
    assert_eq!(tessellation_source(Some("stl"), false, false), Ok(TessellationSource::Stl));
    assert_eq!(tessellation_source(Some("tif"), true, true), Ok(TessellationSource::Topography));
    assert_eq!(tessellation_source(Some("png"), false, true), Ok(TessellationSource::Topography));
    let e = tessellation_source(Some("stl"), true, true).err().unwrap();
    assert_eq!(e, TessellationError::MinDepth);
    assert_eq!(e.what(), Some("min_depth"));
    assert_eq!(tessellation_source(Some("stl"), true, false), Err(TessellationError::Origin));
    assert_eq!(tessellation_source(Some("STL"), false, false), Err(TessellationError::Unimplemented));
    assert_eq!(tessellation_source(None, false, false).err().unwrap().what(), None);
}

#[test]
fn volume_dump_path_in_snake_case() {
    let info = VolumeInfo {
        path: "World.LeadShield".to_string(),
        material: "G4_Pb".to_string(),
        solid: "G4Box".to_string(),
        mother: "World".to_string(),
        daughters: vec![],
    };
    let v = calzone::geometry::Volume::new(info);
    assert_eq!(v.dump_path(None), "lead_shield.gdml");
}

#[test]
fn names_with_punctuation_refused() {
    assert_eq!(check("My_Volume"), Err(NameError::NotAlphanumeric));
    assert_eq!(check("Box1"), Ok(()));
    assert!(!is_volume_key("box"));
}

type Def = VolumeDefinition<u8, (i32, i32, i32), u8>;

fn def(keys: Vec<(&str, DefinitionValue<u8, (i32, i32, i32), u8>)>) -> Def {
    VolumeDefinition {
        material: "G4_AIR".to_string(),
        position: None,
        rotation: None,
        overlaps: None,
        keys: keys.into_iter().map(|(k, v)| (k.to_string(), v)).collect(),
    }
}

#[test]
fn volume_assembled_from_definition() {
    let detector = def(vec![("sphere", DefinitionValue::Shape(2))]);
    let shield = def(vec![("cylinder", DefinitionValue::Shape(3))]);
    let mut world = def(vec![
        ("Shield", DefinitionValue::Volume(shield)),
        ("box", DefinitionValue::Shape(1)),
        ("Detector", DefinitionValue::Volume(detector)),
    ]);
    world.overlaps = Some(vec![("Shield".to_string(), vec!["Detector".to_string()])]);
    let v = assemble_volume("World".to_string(), world).ok().unwrap();
    assert_eq!(v.name, "World");
    assert_eq!(v.shape, 1);
    assert_eq!(names(&v), vec!["Shield".to_string(), "Detector".to_string()]);
    assert_eq!(v.volumes[1].shape, 2);
    assert_eq!(v.overlaps, vec![("Detector".to_string(), "Shield".to_string())]);
    assert_eq!(v.roles, Roles::default());
    assert!(v.subtract.is_empty());
}

#[test]
fn volume_definitions_refused() {
    let r = assemble_volume("world".to_string(), def(vec![("box", DefinitionValue::Shape(1))]));
    assert!(matches!(r, Err(DefinitionError::BadName(n, NameError::NotCapitalized)) if n == "world"));
    let r = assemble_volume("World".to_string(), def(vec![]));
    assert!(matches!(r, Err(DefinitionError::BadShape(ShapeKeyError::Unknown(s))) if s == "None"));
    let r = assemble_volume(
        "World".to_string(),
        def(vec![("box", DefinitionValue::Shape(1)), ("sphere", DefinitionValue::Shape(2))]),
    );
    assert!(matches!(r, Err(DefinitionError::BadShape(ShapeKeyError::Multiple(a, b))) if a == "box" && b == "sphere"));
    let r = assemble_volume("World".to_string(), def(vec![("box", DefinitionValue::Volume(def(vec![])))]));
    assert!(matches!(r, Err(DefinitionError::NotAShape(k)) if k == "box"));
    let r = assemble_volume(
        "World".to_string(),
        def(vec![("box", DefinitionValue::Shape(1)), ("Inner", DefinitionValue::Shape(2))]),
    );
    assert!(matches!(r, Err(DefinitionError::NotAVolume(k)) if k == "Inner"));
    // A daughter's own refusal comes out as it is.
    let r = assemble_volume(
        "World".to_string(),
        def(vec![("box", DefinitionValue::Shape(1)), ("Inner", DefinitionValue::Volume(def(vec![])))]),
    );
    assert!(matches!(r, Err(DefinitionError::BadShape(ShapeKeyError::Unknown(s))) if s == "None"));
    let mut world = def(vec![("box", DefinitionValue::Shape(1))]);
    world.overlaps = Some(vec![("Ghost".to_string(), vec![])]);
    let r = assemble_volume("World".to_string(), world);
    assert!(r.is_ok());
    let mut world = def(vec![("box", DefinitionValue::Shape(1))]);
    world.overlaps = Some(vec![("Ghost".to_string(), vec!["Other".to_string()])]);
    let r = assemble_volume("World".to_string(), world);
    assert!(matches!(r, Err(DefinitionError::BadOverlap(OverlapError::Undefined(n))) if n == "Ghost"));
}

#[test]
fn geometry_has_one_root_volume() {
    let roots = |n: usize| -> Vec<(String, Def)> {
        (0..n).map(|k| (format!("World{}", k), def(vec![("box", DefinitionValue::Shape(1))]))).collect()
    };
    match Definition::new(roots(2), None) {
        Err(e) => {
            assert!(matches!(e, GeometryError::RootCount(2)));
            assert_eq!(e.why().unwrap(), "expected 1 root volume, found 2");
        },
        Ok(_) => panic!("expected a refused geometry"),
    }
    assert!(matches!(Definition::new(vec![], None), Err(GeometryError::RootCount(0))));
    let g = Definition::new(roots(1), Some(MaterialsDefinition { elements: vec![], molecules: vec![], mixtures: vec![] })).ok().unwrap();
    assert_eq!(g.volume.name, "World0");
    assert!(g.materials.is_some());
    let r = Definition::new(vec![("World".to_string(), def(vec![]))], None);
    assert!(matches!(r, Err(GeometryError::Volume(DefinitionError::BadShape(_)))));
}
