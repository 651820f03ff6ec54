use std::io::Write;

use geofile::bbox::GeoBBox;
use geofile::file::{field_span, get_compression, get_extractor, Compression, Extractor, GeoFile, GeoFileError, GeoFileOptions};

fn opts(separator: Option<&str>, col_x: Option<usize>, col_y: Option<usize>, skip: Option<usize>) -> GeoFileOptions {
    GeoFileOptions { separator: separator.map(String::from), col_x, col_y, skip_lines: skip }
}

#[test]
fn compression_from_name() {
    let (base, c) = get_compression(b"data/points.csv.gz");
    assert_eq!(base, b"data/points.csv".to_vec());
    assert_eq!(c, Compression::Gzip);
    let (base, c) = get_compression(b"polygons.geojsonl.br");
    assert_eq!(base, b"polygons.geojsonl".to_vec());
    assert_eq!(c, Compression::Brotli);
    let (base, c) = get_compression(b"dir.gz/points.csv");
    assert_eq!(base, b"dir.gz/points.csv".to_vec());
    assert_eq!(c, Compression::Plain);
    let (base, c) = get_compression(b".gz");
    assert_eq!(base, b".gz".to_vec());
    assert_eq!(c, Compression::Plain);
}

#[test]
fn extractor_from_name() {
    assert!(matches!(get_extractor(b"a.geojsonl", &GeoFileOptions::empty()), Ok(Extractor::GeoJson)));
    assert!(matches!(get_extractor(b"a.geojson", &GeoFileOptions::empty()), Ok(Extractor::GeoJson)));
    match get_extractor(b"a.csv", &GeoFileOptions::empty()).unwrap() {
        Extractor::Delimited { separator, col_x, col_y } => {
            assert_eq!((separator.as_str(), col_x, col_y), (",", 0, 1));
        }
        _ => panic!("expected a delimited extractor"),
    }
    match get_extractor(b"a.tsv", &opts(None, Some(3), None, None)).unwrap() {
        Extractor::Delimited { separator, col_x, col_y } => {
            assert_eq!((separator.as_str(), col_x, col_y), ("\t", 3, 1));
        }
        _ => panic!("expected a delimited extractor"),
    }
    match get_extractor(b"a.csv", &opts(Some(";"), Some(2), Some(4), None)).unwrap() {
        Extractor::Delimited { separator, col_x, col_y } => {
            assert_eq!((separator.as_str(), col_x, col_y), (";", 2, 4));
        }
        _ => panic!("expected a delimited extractor"),
    }
    assert_eq!(get_extractor(b"a.txt", &GeoFileOptions::empty()).unwrap_err(), GeoFileError::UnsupportedExtension);
    assert_eq!(GeoFile::load(b"a.json.gz", vec![], GeoFileOptions::empty()).unwrap_err(), GeoFileError::UnsupportedExtension);
}

#[test]
fn lines_skip_headers_and_keep_last_line() {
    let f = GeoFile::load(b"p.tsv", b"x\ty\n1\t2\r\n3\t4".to_vec(), opts(None, None, None, Some(1))).unwrap();
    assert_eq!(f.skip_lines, 1);
    assert_eq!(f.line_spans(), vec![(4, 4), (9, 3)]);
    assert_eq!(f.read_range(4, 4), b"1\t2\r");
    let g = GeoFile::load(b"p.csv", b"a\n\nb\n".to_vec(), GeoFileOptions::empty()).unwrap();
    assert_eq!(g.line_spans(), vec![(0, 1), (2, 0), (3, 1)]);
    let h = GeoFile::load(b"p.csv", b"a\nb\n".to_vec(), opts(None, None, None, Some(9))).unwrap();
    assert!(h.line_spans().is_empty());
}

#[test]
fn extractor_failure_names_the_record() {
    let f = GeoFile::load(b"p.csv", b"h\n1,2\nbad\n".to_vec(), opts(None, None, None, Some(1))).unwrap();
    let data = f.data.clone();
    let r = f.get_entries(|s, l| {
        let line = std::str::from_utf8(&data[s..s + l]).ok()?;
        let v: Vec<f32> = line.split(',').map(|x| x.parse().ok()).collect::<Option<Vec<f32>>>()?;
        Some((GeoBBox::new_point(v[0].to_bits(), v[1].to_bits()), 0, 0))
    });
    assert_eq!(r.unwrap_err(), GeoFileError::Parse(1));
}

#[test]
fn gzip_source_is_decompressed() {
    let text = b"11.39979,52.47553\n9.8251,48.19072\n";
    let mut enc = libflate::gzip::Encoder::new(Vec::new()).unwrap();
    enc.write_all(text).unwrap();
    let raw = enc.finish().into_result().unwrap();
    assert_ne!(raw, text.to_vec());
    let f = GeoFile::load(b"points.csv.gz", raw, GeoFileOptions::empty()).unwrap();
    assert_eq!(f.data, text.to_vec());
    assert_eq!(f.line_spans(), vec![(0, 17), (18, 15)]);
    assert_eq!(
        GeoFile::load(b"points.csv.gz", b"not gzip".to_vec(), GeoFileOptions::empty()).unwrap_err(),
        GeoFileError::Decompress
    );
}

#[test]
fn brotli_source_is_decompressed() {
    // one uncompressed meta-block holding "ab", then an empty last one
    let raw = vec![0x10, 0x00, 0x10, 0x61, 0x62, 0x03];
    let f = GeoFile::load(b"p.csv.br", raw, GeoFileOptions::empty()).unwrap();
    assert_eq!(f.data, b"ab".to_vec());
    assert_eq!(
        GeoFile::load(b"p.csv.br", vec![0xff, 0xff, 0xff], GeoFileOptions::empty()).unwrap_err(),
        GeoFileError::Decompress
    );
}

#[test]
fn fields_split_at_each_separator() {
    let line = b"a,b,,cd";
    assert_eq!(field_span(line, b",", 0), Some((0, 1)));
    assert_eq!(field_span(line, b",", 1), Some((2, 3)));
    assert_eq!(field_span(line, b",", 2), Some((4, 4)));
    assert_eq!(field_span(line, b",", 3), Some((5, 7)));
    assert_eq!(field_span(line, b",", 4), None);
    assert_eq!(field_span(b"1::2::3", b"::", 2), Some((6, 7)));
    assert_eq!(field_span(b"x,", b",", 1), Some((2, 2)));
    assert_eq!(field_span(b"x;y", b",", 0), Some((0, 3)));
    assert_eq!(field_span(b"x;y", b"", 0), Some((0, 3)));
    assert_eq!(field_span(b"", b",", 0), Some((0, 0)));
}

#[test]
fn non_utf8_record_is_refused() {
    let f = GeoFile::load(b"p.csv", b"1,2\n\xff,3\n".to_vec(), GeoFileOptions::empty()).unwrap();
    let r = f.get_entries(|_, _| Some((GeoBBox::new_point(0, 0), 0, 0)));
    assert_eq!(r.unwrap_err(), GeoFileError::NotUtf8(1));
}

#[test]
fn load_picks_the_extractor_of_the_inner_extension() {
    let raw = vec![0x10, 0x00, 0x10, 0x61, 0x62, 0x03];
    let f = GeoFile::load(b"p.tsv.br", raw, opts(None, Some(2), None, None)).unwrap();
    match f.extractor {
        Extractor::Delimited { separator, col_x, col_y } => {
            assert_eq!((separator.as_str(), col_x, col_y), ("\t", 2, 1));
        }
        _ => panic!("expected a delimited extractor"),
    }
    let g = GeoFile::load(b"shapes.geojsonl", b"{}\n".to_vec(), GeoFileOptions::empty()).unwrap();
    assert!(matches!(g.extractor, Extractor::GeoJson));
}
