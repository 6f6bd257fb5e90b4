use calzone::geometry::map::{
    dump_format, grid_values, header_line, map_format, mesh_quads, Corner, Quad, Turn, metadata_crs, parse_count, projection_crs, DataEnd, DumpFormat, GridError, IntError, MapFormat,
    MapFormatError, MetaType, MetaValue,
};

fn lines(text: &[&str]) -> Vec<Option<String>> {
    text.iter().map(|l| Some(l.to_string())).collect()
}

#[test]
fn grid_header() {
    assert!(matches!(header_line(MetaType::Nx, Some("ncols 4")), Ok(MetaValue::NCols(4))));
    assert!(matches!(header_line(MetaType::Ny, Some("  NROWS\t+12 ")), Ok(MetaValue::NRows(12))));
    assert!(matches!(header_line(MetaType::X0, Some("xllcorner 1.5")), Ok(MetaValue::XllCorner(v)) if v == "1.5"));
    assert!(matches!(header_line(MetaType::Y0, Some("YllCenter -2e3")), Ok(MetaValue::YllCenter(v)) if v == "-2e3"));
    assert!(matches!(header_line(MetaType::Delta, Some("cellsize 25")), Ok(MetaValue::CellSize(v)) if v == "25"));
    assert!(matches!(header_line(MetaType::NoData, Some("nodata_value -9999")), Ok(MetaValue::NoData(v)) if v == "-9999"));
    assert!(matches!(header_line(MetaType::NoData, Some("1.0 2.0")), Ok(MetaValue::Elevations)));
    assert_eq!(MetaType::Delta.lineno(), 5);
}

#[test]
fn grid_header_errors() {
    let why = |r: Result<MetaValue, GridError>| match r {
        Err(e) => e.why("map.asc"),
        Ok(_) => panic!("expected an error"),
    };
    assert_eq!(why(header_line(MetaType::Nx, None)), "map.asc:1: unexpected end-of-line");
    assert_eq!(why(header_line(MetaType::Ny, Some("nrows"))), "map.asc:2: unexpected end-of-line");
    assert_eq!(why(header_line(MetaType::X0, Some("xllcenter 1 2"))), "map.asc:3: unexpected token: 2");
    assert_eq!(why(header_line(MetaType::Nx, Some("nrows 3"))), "map.asc:1: expected ncols, found NROWS");
    assert_eq!(why(header_line(MetaType::Y0, Some("y0 3"))), "map.asc:4: expected yllcenter or yllcorner, found Y0");
    assert_eq!(why(header_line(MetaType::Nx, Some("ncols 3.5"))), "map.asc:1: invalid digit found in string: 3.5");
    assert_eq!(
        why(header_line(MetaType::Ny, Some("nrows 99999999999999999999999"))),
        "map.asc:2: number too large to fit in target type: 99999999999999999999999"
    );
    // A sixth line of elevations with three values or more is taken for a
    // header line with a word too many.
    assert_eq!(why(header_line(MetaType::NoData, Some("1 2 3"))), "map.asc:6: unexpected token: 3");
}

#[test]
fn counts() {
    assert_eq!(parse_count("0").ok(), Some(0));
    assert_eq!(parse_count("+42").ok(), Some(42));
    assert_eq!(parse_count("007").ok(), Some(7));
    assert_eq!(parse_count("").unwrap_err(), IntError::Empty);
    assert_eq!(parse_count("+").unwrap_err(), IntError::InvalidDigit);
    assert_eq!(parse_count("-1").unwrap_err(), IntError::InvalidDigit);
    assert_eq!(parse_count("18446744073709551615").ok(), Some(usize::MAX));
    assert_eq!(parse_count("18446744073709551616").unwrap_err(), IntError::PosOverflow);
    assert_eq!(parse_count("99999999999999999999x").unwrap_err(), IntError::PosOverflow);
    assert_eq!(IntError::Empty.why(), "cannot parse integer from empty string");
}

#[test]
fn grid_elevations() {
    // Two rows of three: the first row read is the top one.
    let (values, end) = grid_values(&lines(&["1 2 3", "", "4 5", "6 7 8"]), 7, 3, 2);
    assert_eq!(end, DataEnd::Complete);
    let tokens: Vec<&str> = values.iter().map(|v| v.token.as_str()).collect();
    assert_eq!(tokens, vec!["1", "2", "3", "4", "5", "6"]);
    let positions: Vec<usize> = values.iter().map(|v| v.position).collect();
    assert_eq!(positions, vec![3, 4, 5, 0, 1, 2]);
    let linenos: Vec<usize> = values.iter().map(|v| v.lineno).collect();
    assert_eq!(linenos, vec![7, 7, 7, 9, 9, 10]);
}

#[test]
fn grid_elevations_end() {
    let (values, end) = grid_values(&lines(&["1 2", "3"]), 6, 2, 2);
    assert_eq!(values.len(), 3);
    assert_eq!(end, DataEnd::Short(4, 3));
    assert_eq!(GridError::MissingValues(4, 3).why("map.asc"), "map.asc: expected 4 z-values, found 3");

    let mut text = lines(&["1 2", "3 4"]);
    text.push(None);
    let (values, end) = grid_values(&text, 7, 2, 2);
    assert_eq!(values.len(), 4);
    assert_eq!(end, DataEnd::EndOfLine(9));

    let text = vec![Some("1 2".to_string()), None, Some("3 4".to_string())];
    let (_, end) = grid_values(&text, 7, 2, 2);
    assert_eq!(end, DataEnd::EndOfLine(8));

    let (values, end) = grid_values(&lines(&["1 2 3 4 5"]), 7, 2, 2);
    assert_eq!(values.len(), 4);
    assert_eq!(end, DataEnd::Complete);

    let (values, end) = grid_values(&[None], 7, 0, 5);
    assert!(values.is_empty());
    assert_eq!(end, DataEnd::Complete);
}

#[test]
fn map_formats() {
    assert!(matches!(map_format(Some("asc")), Ok(MapFormat::Ascii)));
    assert!(matches!(map_format(Some("ASC")), Ok(MapFormat::Ascii)));
    assert!(matches!(map_format(Some("PNG")), Ok(MapFormat::Png)));
    assert!(matches!(map_format(Some("tif")), Ok(MapFormat::GeoTiff)));
    match map_format(Some("Asc")) {
        Err(e) => {
            assert!(matches!(&e, MapFormatError::Unimplemented(x) if x == "Asc"));
            assert_eq!(e.why(), "unimplemented 'Asc' format");
        },
        Ok(_) => panic!("expected an unread format"),
    }
    match map_format(None) {
        Err(e) => assert_eq!(e.why(), "missing format"),
        Ok(_) => panic!("expected a missing format"),
    }
}

#[test]
fn map_projections() {
    assert_eq!(projection_crs("Lambert 93"), Some(2154));
    assert_eq!(projection_crs("Lambert IV"), Some(27574));
    assert_eq!(projection_crs("Mercator"), None);
    // A projection named, even unknown, stands over a code given.
    assert_eq!(metadata_crs(Some("Lambert II"), Some(4326)), Some(27572));
    assert_eq!(metadata_crs(Some("Mercator"), Some(4326)), None);
    assert_eq!(metadata_crs(None, Some(4326)), Some(4326));
    assert_eq!(metadata_crs(None, None), None);
}

#[test]
fn dump_formats() {
    assert!(matches!(dump_format(Some("STL")), Ok(DumpFormat::Stl)));
    assert!(matches!(dump_format(Some("asc")), Ok(DumpFormat::Ascii)));
    assert!(matches!(dump_format(Some("png")), Ok(DumpFormat::Png)));
    assert_eq!(dump_format(Some("tif")).err().unwrap(), "unimplemented conversion to 'tif'");
    assert_eq!(dump_format(None).err().unwrap(), "missing file extension");
}

fn top(i: usize, j: usize) -> Corner {
    Corner { i, j, bottom: false }
}

fn bot(i: usize, j: usize) -> Corner {
    Corner { i, j, bottom: true }
}

#[test]
fn mesh_layout() {
    let quads = mesh_quads(3, 2, false, Turn::Positive);
    // Two cells, two sides of two quads along x, two of one along y, one
    // bottom: (3 + 1) (2 + 1) - 3 quads.
    assert_eq!(quads.len(), 9);
    assert_eq!(quads[0], Quad { left: true, a: top(0, 0), b: top(0, 1), c: top(1, 1), d: top(1, 0) });
    assert_eq!(quads[1], Quad { left: true, a: top(0, 1), b: top(0, 2), c: top(1, 2), d: top(1, 1) });
    assert_eq!(quads[2], Quad { left: false, a: top(0, 0), b: top(0, 1), c: bot(0, 1), d: bot(0, 0) });
    assert_eq!(quads[4], Quad { left: true, a: top(1, 0), b: top(1, 1), c: bot(1, 1), d: bot(1, 0) });
    assert_eq!(quads[6], Quad { left: true, a: top(0, 0), b: top(1, 0), c: bot(1, 0), d: bot(0, 0) });
    assert_eq!(quads[7], Quad { left: false, a: top(0, 2), b: top(1, 2), c: bot(1, 2), d: bot(0, 2) });
    assert_eq!(quads[8], Quad { left: false, a: bot(0, 0), b: bot(0, 2), c: bot(1, 2), d: bot(1, 0) });
    // Regular, the bottom repeats the cells: 2 (3 x 2 - 1) quads.
    let quads = mesh_quads(3, 2, true, Turn::Negative);
    assert_eq!(quads.len(), 10);
    assert!(!quads[0].left);
    assert_eq!(quads[9], Quad { left: true, a: bot(0, 1), b: bot(0, 2), c: bot(1, 2), d: bot(1, 1) });
    assert!(mesh_quads(3, 2, true, Turn::Flat).is_empty());
    // A single row: its side twice, turning alike.
    let quads = mesh_quads(3, 1, false, Turn::Positive);
    assert_eq!(quads.len(), 5);
    assert_eq!(quads[0], quads[2]);
}

fn boundary_edges(quads: &[Quad]) -> Vec<(Corner, Corner)> {
    let mut edges = Vec::new();
    for q in quads {
        let cycle = if q.left { [q.a, q.b, q.c, q.d] } else { [q.a, q.d, q.c, q.b] };
        for k in 0..4 {
            edges.push((cycle[k], cycle[(k + 1) % 4]));
        }
    }
    edges
}

#[test]
fn regular_mesh_closed() {
    for turn in [Turn::Positive, Turn::Negative] {
        let edges = boundary_edges(&mesh_quads(4, 3, true, turn));
        for (u, v) in edges.iter() {
            assert!(edges.contains(&(*v, *u)));
        }
    }
    // Not regular, the bottom spans the side corners between its own.
    let edges = boundary_edges(&mesh_quads(3, 2, false, Turn::Positive));
    assert!(edges.iter().any(|(u, v)| !edges.contains(&(*v, *u))));
}
