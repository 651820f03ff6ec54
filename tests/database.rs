use geofile::bbox::GeoBBox;
use geofile::codec::LoadError;
use geofile::database::{GeoDB, GeoError};
use geofile::file::{GeoFile, GeoFileError, GeoFileOptions};
use geofile::index::{BuildError, GeoIndex};
use geofile::node::GeoEntry;

fn f(bits: u32) -> f32 {
    f32::from_bits(bits)
}

fn horizontal(b: &GeoBBox) -> bool {
    (f(b.x_max) - f(b.x_min)) > (f(b.y_max) - f(b.y_min))
}

fn query_box(x_min: f32, y_min: f32, x_max: f32, y_max: f32) -> GeoBBox {
    GeoBBox::new(x_min.to_bits(), x_max.to_bits(), y_min.to_bits(), y_max.to_bits())
}

fn csv_entries(name: &[u8], text: &str, opt: GeoFileOptions, sep: &str) -> (Vec<u8>, Result<Vec<GeoEntry>, GeoFileError>) {
    let file = GeoFile::load(name, text.as_bytes().to_vec(), opt).unwrap();
    let data = file.data.clone();
    let entries = file.get_entries(|s, l| {
        let line = std::str::from_utf8(&data[s..s + l]).ok()?;
        let fields: Vec<&str> = line.split(sep).collect();
        let x: f32 = fields.get(0)?.parse().ok()?;
        let y: f32 = fields.get(1)?.parse().ok()?;
        Some((GeoBBox::new_point(x.to_bits(), y.to_bits()), (x + x).to_bits(), (y + y).to_bits()))
    });
    (data, entries)
}

fn csv_db(text: &str) -> GeoDB {
    let (data, entries) = csv_entries(b"points.csv", text, GeoFileOptions::empty(), ",");
    GeoDB::build(entries.unwrap(), |b: &GeoBBox| horizontal(b), &data).unwrap()
}

fn texts(chunks: &[&[u8]]) -> Vec<String> {
    chunks.iter().map(|c| String::from_utf8(c.to_vec()).unwrap()).collect()
}

const TWO_POINTS: &str = "11.39979,52.47553\n9.8251,48.19072\n";

#[test]
fn geo_file_options() {
    let options = GeoFileOptions {
        separator: Some(String::from("a")),
        col_x: Some(5),
        col_y: Some(6),
        skip_lines: Some(7),
    };

    assert_eq!(options.separator.unwrap(), "a");
    assert_eq!(options.col_x.unwrap(), 5);
    assert_eq!(options.col_y.unwrap(), 6);
    assert_eq!(options.skip_lines.unwrap(), 7);
}

#[test]
fn csv_point_store() {
    let (_, entries) = csv_entries(b"points.csv", TWO_POINTS, GeoFileOptions::empty(), ",");
    let entries = entries.unwrap();
    assert_eq!(entries.len(), 2);
    assert_eq!((entries[0].start, entries[0].length), (0, 17));
    assert_eq!((entries[1].start, entries[1].length), (18, 15));
    assert_eq!(entries[0].bbox, GeoBBox::new_point(11.39979f32.to_bits(), 52.47553f32.to_bits()));

    let db = csv_db(TWO_POINTS);
    assert_eq!(db.index.nodes.len(), 3);
    let (chunks, next) = db.query_bbox(&query_box(9.0, 48.0, 12.0, 53.0), 0, 10).unwrap();
    let mut got = texts(&chunks);
    got.sort();
    assert_eq!(got, vec!["11.39979,52.47553".to_string(), "9.8251,48.19072".to_string()]);
    assert_eq!(next, 0);
    assert_eq!(db.table.data.len(), 32);
}

#[test]
fn pagination_one_at_a_time() {
    let db = csv_db(TWO_POINTS);
    let q = query_box(9.0, 48.0, 12.0, 53.0);
    let (all, _) = db.query_bbox(&q, 0, 10).unwrap();
    let (first, c1) = db.query_bbox(&q, 0, 1).unwrap();
    assert_eq!(first.len(), 1);
    assert_ne!(c1, 0);
    let (second, c2) = db.query_bbox(&q, c1, 9).unwrap();
    assert_eq!(c2, 0);
    let mut joined = texts(&first);
    joined.extend(texts(&second));
    assert_eq!(joined, texts(&all));
}

#[test]
fn disjoint_query_is_empty() {
    let db = csv_db(TWO_POINTS);
    let (chunks, next) = db.query_bbox(&query_box(0.0, 0.0, 1.0, 1.0), 0, 10).unwrap();
    assert!(chunks.is_empty());
    assert_eq!(next, 0);
}

#[test]
fn zero_cap_returns_cursor() {
    let db = csv_db(TWO_POINTS);
    let (chunks, next) = db.query_bbox(&query_box(9.0, 48.0, 12.0, 53.0), 1, 0).unwrap();
    assert!(chunks.is_empty());
    assert_eq!(next, 1);
}

#[test]
fn single_record_is_one_leaf() {
    let db = csv_db("1.5,2.5\n");
    assert_eq!(db.index.nodes.len(), 1);
    let q = query_box(1.5, 2.5, 1.5, 2.5);
    let (chunks, next) = db.query_bbox(&q, 0, 5).unwrap();
    assert_eq!(texts(&chunks), vec!["1.5,2.5".to_string()]);
    assert_eq!(next, 0);
}

fn grid_text() -> String {
    let mut text = String::new();
    for i in 0..9 {
        for j in 0..7 {
            text.push_str(&format!("{},{}\n", i as f32 * 1.5, j as f32 * 0.75 - 2.0));
        }
    }
    text.push_str("3,1\n3,1\n3,1\n");
    text
}

fn brute_force(text: &str, q: &GeoBBox) -> Vec<String> {
    let mut out: Vec<String> = text
        .lines()
        .filter(|l| {
            let v: Vec<f32> = l.split(',').map(|s| s.parse().unwrap()).collect();
            GeoBBox::new_point(v[0].to_bits(), v[1].to_bits()).overlap_bbox(q)
        })
        .map(|l| l.to_string())
        .collect();
    out.sort();
    out
}

#[test]
fn query_matches_brute_force_and_pages_agree() {
    let text = grid_text();
    let db = csv_db(&text);
    assert_eq!(db.index.nodes.len(), 2 * 66 - 1);
    let boxes = [
        query_box(1.0, -1.0, 6.0, 1.0),
        query_box(-10.0, -10.0, 100.0, 100.0),
        query_box(3.0, 1.0, 3.0, 1.0),
        query_box(4.5, -2.0, 4.5, 2.5),
        query_box(20.0, 20.0, 30.0, 30.0),
    ];
    for q in boxes.iter() {
        let (all, next) = db.query_bbox(q, 0, 1000).unwrap();
        assert_eq!(next, 0);
        let mut got = texts(&all);
        let in_order = got.clone();
        got.sort();
        assert_eq!(got, brute_force(&text, q));
        // one leaf at a time
        let mut paged: Vec<String> = Vec::new();
        let mut cursor = 0;
        loop {
            let (chunk, c) = db.query_bbox(q, cursor, 1).unwrap();
            assert!(chunk.len() <= 1);
            paged.extend(texts(&chunk));
            if c == 0 {
                break;
            }
            cursor = c;
        }
        assert_eq!(paged, in_order);
        // any split of the room
        for cap1 in 1..5usize {
            let (a, c1) = db.query_bbox(q, 0, cap1).unwrap();
            if c1 == 0 {
                continue;
            }
            let (b, c2) = db.query_bbox(q, c1, 3).unwrap();
            let (whole, c3) = db.query_bbox(q, 0, cap1 + 3).unwrap();
            let mut joined = texts(&a);
            joined.extend(texts(&b));
            assert_eq!(joined, texts(&whole));
            assert_eq!(c2, c3);
        }
    }
}

#[test]
fn every_internal_node_covers_its_children() {
    let db = csv_db(&grid_text());
    let nodes = &db.index.nodes;
    for (i, n) in nodes.iter().enumerate() {
        if !n.is_leaf {
            assert!(n.value1 > i && n.value2 > n.value1);
            let mut u = nodes[n.value1].bbox;
            u.include_bbox(&nodes[n.value2].bbox);
            assert_eq!(n.bbox, u);
            assert_eq!(nodes[n.value1].next, n.value2);
            assert_eq!(nodes[n.value2].next, n.next);
        }
    }
    assert_eq!(nodes[0].next, 0);
}

#[test]
fn build_is_deterministic() {
    let a = csv_db(&grid_text());
    let b = csv_db(&grid_text());
    assert_eq!(a.index.to_bytes(), b.index.to_bytes());
    assert_eq!(a.table.data, b.table.data);
}

#[test]
fn reload_answers_the_same() {
    let db = csv_db(&grid_text());
    let bytes = db.index.to_bytes();
    assert_eq!(bytes.len(), 13 + 41 * db.index.nodes.len());
    assert_eq!(&bytes[0..5], &[0x47, 0x49, 0x44, 0x58, 1]);
    let again = GeoDB::load(&bytes, db.table.data.clone()).unwrap();
    assert_eq!(again.index.nodes, db.index.nodes);
    let q = query_box(1.0, -1.0, 6.0, 1.0);
    let (x, nx) = db.query_bbox(&q, 0, 7).unwrap();
    let (y, ny) = again.query_bbox(&q, 0, 7).unwrap();
    assert_eq!(texts(&x), texts(&y));
    assert_eq!(nx, ny);
}

#[test]
fn load_rejects_bad_files() {
    let db = csv_db(TWO_POINTS);
    let bytes = db.index.to_bytes();
    assert_eq!(GeoDB::load(b"junk", vec![]).unwrap_err(), GeoError::Load(LoadError::BadHeader));
    let mut short = bytes.clone();
    short.pop();
    assert_eq!(GeoDB::load(&short, db.table.data.clone()).unwrap_err(), GeoError::Load(LoadError::BadHeader));
    let mut flag = bytes.clone();
    flag[13 + 16] = 2;
    assert_eq!(GeoDB::load(&flag, db.table.data.clone()).unwrap_err(), GeoError::Load(LoadError::BadRecord));
    let mut tree = bytes.clone();
    tree[13 + 33] = 1;
    assert_eq!(GeoDB::load(&tree, db.table.data.clone()).unwrap_err(), GeoError::Load(LoadError::BadTree));
    assert_eq!(GeoDB::load(&bytes, vec![0; 10]).unwrap_err(), GeoError::TableTooShort);
    assert!(GeoIndex::load(&bytes).is_ok());
}

#[test]
fn build_errors() {
    let none: Vec<GeoEntry> = Vec::new();
    assert_eq!(GeoDB::build(none, |b: &GeoBBox| horizontal(b), b"").unwrap_err(), GeoError::NoRecords);
    let p = GeoBBox::new_point(1.0f32.to_bits(), 2.0f32.to_bits());
    let nan = GeoEntry { bbox: GeoBBox::new_point(f32::NAN.to_bits(), 0), start: 0, length: 1, sum_x: 0, sum_y: 0 };
    let ok = GeoEntry { bbox: p, start: 0, length: 1, sum_x: 2.0f32.to_bits(), sum_y: 4.0f32.to_bits() };
    assert_eq!(
        GeoDB::build(vec![ok, nan], |b: &GeoBBox| horizontal(b), b"ab").unwrap_err(),
        GeoError::InvalidCoordinate
    );
    let far = GeoEntry { start: 1, length: 5, ..ok };
    assert_eq!(
        GeoDB::build(vec![ok, far], |b: &GeoBBox| horizontal(b), b"ab").unwrap_err(),
        GeoError::OutOfRange
    );
    assert_eq!(GeoIndex::create(Vec::new(), |b: &GeoBBox| horizontal(b)).unwrap_err(), BuildError::NoRecords);
}

#[test]
fn bad_cursor_is_refused() {
    let db = csv_db(TWO_POINTS);
    assert_eq!(db.query_bbox(&query_box(9.0, 48.0, 12.0, 53.0), 3, 1).unwrap_err(), GeoError::BadCursor);
}

#[test]
fn identical_records_all_returned() {
    let db = csv_db("2,2\n2,2\n2,2\n2,2\n2,2\n");
    let (chunks, next) = db.query_bbox(&query_box(2.0, 2.0, 2.0, 2.0), 0, 100).unwrap();
    assert_eq!(chunks.len(), 5);
    assert_eq!(next, 0);
}

#[test]
fn leaves_follow_the_split_axis() {
    let db = csv_db("5,0\n4,0.5\n3,0\n2,0.5\n1,0\n");
    let xs: Vec<f32> = db
        .index
        .nodes
        .iter()
        .filter(|n| n.is_leaf)
        .map(|n| f(n.bbox.x_min))
        .collect();
    assert_eq!(xs, vec![1.0, 2.0, 3.0, 4.0, 5.0]);
    let root = &db.index.nodes[0];
    assert_eq!(root.bbox, GeoBBox::new(1.0f32.to_bits(), 5.0f32.to_bits(), 0.0f32.to_bits(), 0.5f32.to_bits()));
    // two leaves go left, three right
    let left_leaves = db.index.nodes[1..root.value2].iter().filter(|n| n.is_leaf).count();
    assert_eq!(left_leaves, 2);
}
