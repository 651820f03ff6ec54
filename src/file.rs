use vstd::prelude::*;
use crate::bbox::GeoBBox;
use crate::node::GeoEntry;
use vstd::utf8::valid_utf8;

verus! {

/// How a source file is compressed, as its last extension tells.
#[derive(Clone, Copy, PartialEq, Eq, Structural, Debug)]
pub enum Compression {
    Brotli,
    Gzip,
    Plain,
}

/// Options for delimited sources; each falls back to a default.
#[derive(Clone, Debug)]
pub struct GeoFileOptions {
    pub separator: Option<String>,
    pub col_x: Option<usize>,
    pub col_y: Option<usize>,
    pub skip_lines: Option<usize>,
}

impl GeoFileOptions {
    /// No option set: every default applies.
    pub fn empty() -> (r: Self)
        ensures
            r.separator is None,
            r.col_x is None,
            r.col_y is None,
            r.skip_lines is None,
    {
        GeoFileOptions { separator: None, col_x: None, col_y: None, skip_lines: None }
    }
}

/// How each line of a source yields its box.
#[derive(Clone, Debug)]
pub enum Extractor {
    /// The line is one GeoJSON feature; its box covers the geometry.
    GeoJson,
    /// The line holds delimited fields; two of them are the point's x and y.
    Delimited { separator: String, col_x: usize, col_y: usize },
}

/// Why a source could not be read.
#[derive(Clone, Copy, PartialEq, Eq, Structural, Debug)]
pub enum GeoFileError {
    /// The file name ends in no known extension.
    UnsupportedExtension,
    /// The compressed bytes did not decode.
    Decompress,
    /// The record with this index (counting from 0, after the skipped
    /// lines) yielded no box.
    Parse(usize),
    /// The record with this index is not UTF-8.
    NotUtf8(usize),
}

/// The position of the last `c` in `s[..hi)`, or -1.
pub open spec fn last_index(s: Seq<u8>, c: u8, hi: int) -> int
    decreases hi,
{
    if hi <= 0 {
        -1
    } else if s[hi - 1] == c {
        hi - 1
    } else {
        last_index(s, c, hi - 1)
    }
}

/// The position of the dot that starts the extension of a path's last
/// component, or -1 when it has none (no dot, or only a leading one).
pub open spec fn ext_dot(name: Seq<u8>) -> int {
    let start = last_index(name, 0x2f, name.len() as int) + 1;
    let dot = last_index(name, 0x2e, name.len() as int);
    if dot > start {
        dot
    } else {
        -1
    }
}

/// The path's extension is `ext`.
pub open spec fn has_ext(name: Seq<u8>, ext: Seq<u8>) -> bool {
    ext_dot(name) >= 0 && name.subrange(ext_dot(name) + 1, name.len() as int) == ext
}

/// The path without its extension, or the path itself when it has none.
pub open spec fn strip_ext(name: Seq<u8>) -> Seq<u8> {
    if ext_dot(name) >= 0 {
        name.subrange(0, ext_dot(name))
    } else {
        name
    }
}

proof fn lemma_last_index_range(s: Seq<u8>, c: u8, hi: int)
    requires
        0 <= hi,
    ensures
        -1 <= last_index(s, c, hi) < hi,
    decreases hi,
{
    if hi > 0 && s[hi - 1] != c {
        lemma_last_index_range(s, c, hi - 1);
    }
}

fn last_index_of(s: &[u8], c: u8) -> (r: i64)
    requires
        s@.len() < 0x7fff_ffff_ffff_ffff,
    ensures
        r == last_index(s@, c, s@.len() as int),
        -1 <= r < s@.len(),
{
    proof {
        lemma_last_index_range(s@, c, s@.len() as int);
    }
    let mut hi: usize = s.len();
    while hi > 0
        invariant
            hi <= s@.len() < 0x7fff_ffff_ffff_ffff,
            last_index(s@, c, s@.len() as int) == last_index(s@, c, hi as int),
        decreases hi,
    {
        if s[hi - 1] == c {
            return (hi - 1) as i64;
        }
        hi -= 1;
    }
    -1
}

fn extension_dot(name: &[u8]) -> (r: i64)
    requires
        name@.len() < 0x7fff_ffff_ffff_ffff,
    ensures
        r == ext_dot(name@),
        -1 <= r < name@.len(),
{
    let start = last_index_of(name, 0x2f) + 1;
    let dot = last_index_of(name, 0x2e);
    if dot > start {
        dot
    } else {
        -1
    }
}

fn ext_is(name: &[u8], ext: &Vec<u8>) -> (r: bool)
    requires
        name@.len() < 0x7fff_ffff_ffff_ffff,
    ensures
        r == has_ext(name@, ext@),
{
    let dot = extension_dot(name);
    if dot < 0 {
        return false;
    }
    assert(name@.len() == name.len());
    let d = dot as usize;
    if name.len() - (d + 1) != ext.len() {
        assert(name@.subrange(d + 1, name@.len() as int).len() != ext@.len());
        return false;
    }
    let mut i: usize = 0;
    while i < ext.len()
        invariant
            name@.len() == name.len(),
            d == ext_dot(name@),
            d + 1 + ext@.len() == name@.len(),
            0 <= i <= ext@.len(),
            forall|j: int| 0 <= j < i ==> name@[d + 1 + j] == ext@[j],
        decreases ext.len() - i,
    {
        if name[d + 1 + i] != ext[i] {
            assert(name@.subrange(d + 1, name@.len() as int)[i as int] != ext@[i as int]);
            return false;
        }
        i += 1;
    }
    assert(name@.subrange(d + 1, name@.len() as int) =~= ext@);
    true
}

/// The compression that the name's extension announces (`.br`, `.gz`),
/// and the name without that extension.
pub fn get_compression(name: &[u8]) -> (r: (Vec<u8>, Compression))
    requires
        name@.len() < 0x7fff_ffff_ffff_ffff,
    ensures
        has_ext(name@, seq![0x62u8, 0x72u8]) ==> r.1 == Compression::Brotli && r.0@ == strip_ext(name@),
        has_ext(name@, seq![0x67u8, 0x7au8]) ==> r.1 == Compression::Gzip && r.0@ == strip_ext(name@),
        !has_ext(name@, seq![0x62u8, 0x72u8]) && !has_ext(name@, seq![0x67u8, 0x7au8]) ==> r.1
            == Compression::Plain && r.0@ == name@,
        r.0@.len() <= name@.len(),
{
    let br: Vec<u8> = vec![0x62, 0x72];
    let gz: Vec<u8> = vec![0x67, 0x7a];
    assert(br@ =~= seq![0x62u8, 0x72u8]);
    assert(gz@ =~= seq![0x67u8, 0x7au8]);
    let compression = if ext_is(name, &br) {
        Compression::Brotli
    } else if ext_is(name, &gz) {
        Compression::Gzip
    } else {
        return (slice_to_vec(name), Compression::Plain);
    };
    assert(name@.len() == name.len());
    let dot = extension_dot(name) as usize;
    (slice_to_vec(&name[0..dot]), compression)
}

fn slice_to_vec(s: &[u8]) -> (r: Vec<u8>)
    ensures
        r@ == s@,
{
    let mut v: Vec<u8> = Vec::new();
    let mut i: usize = 0;
    while i < s.len()
        invariant
            0 <= i <= s@.len(),
            v@ == s@.subrange(0, i as int),
        decreases s.len() - i,
    {
        v.push(s[i]);
        i += 1;
        assert(v@ =~= s@.subrange(0, i as int));
    }
    assert(s@.subrange(0, s@.len() as int) =~= s@);
    v
}

pub open spec fn ext_geojsonl() -> Seq<u8> {
    seq![0x67u8, 0x65u8, 0x6fu8, 0x6au8, 0x73u8, 0x6fu8, 0x6eu8, 0x6cu8]
}

pub open spec fn ext_geojson() -> Seq<u8> {
    seq![0x67u8, 0x65u8, 0x6fu8, 0x6au8, 0x73u8, 0x6fu8, 0x6eu8]
}

pub open spec fn ext_csv() -> Seq<u8> {
    seq![0x63u8, 0x73u8, 0x76u8]
}

pub open spec fn ext_tsv() -> Seq<u8> {
    seq![0x74u8, 0x73u8, 0x76u8]
}

/// The extractor is the delimited one with these settings.
pub open spec fn is_delimited(x: Extractor, separator: Seq<char>, col_x: usize, col_y: usize) -> bool {
    match x {
        Extractor::Delimited { separator: s, col_x: cx, col_y: cy } => s@ == separator && cx == col_x
            && cy == col_y,
        _ => false,
    }
}

/// The separator that applies: the option's, or `default`.
pub open spec fn separator_or(opt: GeoFileOptions, default: Seq<char>) -> Seq<char> {
    match opt.separator {
        Some(s) => s@,
        None => default,
    }
}

pub open spec fn or_default(v: Option<usize>, default: usize) -> usize {
    match v {
        Some(x) => x,
        None => default,
    }
}

/// `x` is the extractor that the name's extension and the options call for.
pub open spec fn picks(name: Seq<u8>, opt: GeoFileOptions, x: Extractor) -> bool {
    if has_ext(name, ext_geojsonl()) || has_ext(name, ext_geojson()) {
        x is GeoJson
    } else if has_ext(name, ext_csv()) {
        is_delimited(x, separator_or(opt, seq![',']), or_default(opt.col_x, 0), or_default(opt.col_y, 1))
    } else if has_ext(name, ext_tsv()) {
        is_delimited(
            x,
            separator_or(opt, seq!['\t']),
            or_default(opt.col_x, 0),
            or_default(opt.col_y, 1),
        )
    } else {
        false
    }
}

/// Picks the extractor that the name's extension calls for: GeoJSON for
/// `.geojson` and `.geojsonl`; delimited for `.csv` (separator `,`) and
/// `.tsv` (a tab), with x in column 0 and y in column 1 unless the options
/// say otherwise.
pub fn get_extractor(name: &[u8], opt: &GeoFileOptions) -> (r: Result<Extractor, GeoFileError>)
    requires
        name@.len() < 0x7fff_ffff_ffff_ffff,
    ensures
        has_ext(name@, ext_geojsonl()) || has_ext(name@, ext_geojson()) ==> r matches Ok(
            Extractor::GeoJson,
        ),
        has_ext(name@, ext_csv()) ==> (r matches Ok(x) && is_delimited(
            x,
            separator_or(*opt, seq![',']),
            or_default(opt.col_x, 0),
            or_default(opt.col_y, 1),
        )),
        has_ext(name@, ext_tsv()) ==> (r matches Ok(x) && is_delimited(
            x,
            separator_or(*opt, seq!['\t']),
            or_default(opt.col_x, 0),
            or_default(opt.col_y, 1),
        )),
        r is Err <==> !has_ext(name@, ext_geojsonl()) && !has_ext(name@, ext_geojson())
            && !has_ext(name@, ext_csv()) && !has_ext(name@, ext_tsv()),
        r is Err ==> r == Err::<Extractor, GeoFileError>(GeoFileError::UnsupportedExtension),
        r matches Ok(x) ==> picks(name@, *opt, x),
{
    let geojsonl: Vec<u8> = vec![0x67, 0x65, 0x6f, 0x6a, 0x73, 0x6f, 0x6e, 0x6c];
    let geojson: Vec<u8> = vec![0x67, 0x65, 0x6f, 0x6a, 0x73, 0x6f, 0x6e];
    let csv: Vec<u8> = vec![0x63, 0x73, 0x76];
    let tsv: Vec<u8> = vec![0x74, 0x73, 0x76];
    assert(geojsonl@ =~= ext_geojsonl());
    assert(geojson@ =~= ext_geojson());
    assert(csv@ =~= ext_csv());
    assert(tsv@ =~= ext_tsv());
    let is_csv = ext_is(name, &csv);
    let is_tsv = ext_is(name, &tsv);
    if ext_is(name, &geojsonl) || ext_is(name, &geojson) {
        proof {
            lemma_one_ext(name@, ext_geojsonl(), ext_csv());
            lemma_one_ext(name@, ext_geojsonl(), ext_tsv());
            lemma_one_ext(name@, ext_geojson(), ext_csv());
            lemma_one_ext(name@, ext_geojson(), ext_tsv());
        }
        Ok(Extractor::GeoJson)
    } else if is_csv || is_tsv {
        proof {
            lemma_one_ext(name@, ext_csv(), ext_tsv());
        }
        let separator = match &opt.separator {
            Some(s) => s.clone(),
            None => if is_csv {
                ",".to_owned()
            } else {
                "\t".to_owned()
            },
        };
        proof {
            reveal_strlit(",");
            reveal_strlit("\t");
        }
        let col_x = match opt.col_x {
            Some(c) => c,
            None => 0,
        };
        let col_y = match opt.col_y {
            Some(c) => c,
            None => 1,
        };
        proof {
            if is_csv {
                assert(separator@ == separator_or(*opt, seq![',']));
            } else {
                assert(separator@ == separator_or(*opt, seq!['\t']));
            }
            assert(col_x == or_default(opt.col_x, 0));
            assert(col_y == or_default(opt.col_y, 1));
        }
        Ok(Extractor::Delimited { separator, col_x, col_y })
    } else {
        Err(GeoFileError::UnsupportedExtension)
    }
}

proof fn lemma_one_ext(name: Seq<u8>, a: Seq<u8>, b: Seq<u8>)
    requires
        a != b,
    ensures
        !(has_ext(name, a) && has_ext(name, b)),
{
}

/// What `brotli_decompressor::BrotliDecompress` makes of a stream: the
/// decoded bytes, or `None` when it fails.
pub uninterp spec fn brotli_decoded(raw: Seq<u8>) -> Option<Seq<u8>>;

/// What a gzip decoder of `libflate` makes of a stream: the decoded bytes,
/// or `None` when it fails.
pub uninterp spec fn gzip_decoded(raw: Seq<u8>) -> Option<Seq<u8>>;

/// Relies on `brotli_decompressor::BrotliDecompress`, which decodes a whole
/// brotli stream; what it writes depends on the input alone. `None` when
/// the stream does not decode.
#[verifier::external_body]
fn unbrotli(raw: &[u8]) -> (r: Option<Vec<u8>>)
    ensures
        match r {
            Some(v) => brotli_decoded(raw@) == Some(v@),
            None => brotli_decoded(raw@) is None,
        },
{
    let mut input = raw;
    let mut out: Vec<u8> = Vec::new();
    match brotli_decompressor::BrotliDecompress(&mut input, &mut out) {
        Ok(()) => Some(out),
        Err(_) => None,
    }
}

/// Relies on `libflate::gzip::Decoder` with `Read::read_to_end`, which
/// decode a whole gzip stream; what they yield depends on the input alone.
/// `None` when the header or the stream does not decode.
#[verifier::external_body]
fn gunzip(raw: &[u8]) -> (r: Option<Vec<u8>>)
    ensures
        match r {
            Some(v) => gzip_decoded(raw@) == Some(v@),
            None => gzip_decoded(raw@) is None,
        },
{
    let mut out: Vec<u8> = Vec::new();
    match libflate::gzip::Decoder::new(raw) {
        Ok(mut d) => match std::io::Read::read_to_end(&mut d, &mut out) {
            Ok(_) => Some(out),
            Err(_) => None,
        },
        Err(_) => None,
    }
}

/// The bytes that a source with this compression stands for, or `None`
/// when they do not decode.
pub open spec fn source_bytes(raw: Seq<u8>, c: Compression) -> Option<Seq<u8>> {
    match c {
        Compression::Brotli => brotli_decoded(raw),
        Compression::Gzip => gzip_decoded(raw),
        Compression::Plain => Some(raw),
    }
}

/// The lines from position `i` on, given that the current line started at
/// `start`: each as its offset and its length without the newline. A last
/// line without a newline counts too.
pub open spec fn scan_lines(data: Seq<u8>, i: int, start: int) -> Seq<(int, int)>
    decreases data.len() - i,
{
    if i >= data.len() {
        if start < data.len() {
            seq![(start, data.len() - start)]
        } else {
            seq![]
        }
    } else if data[i] == 0x0a {
        seq![(start, i - start)] + scan_lines(data, i + 1, i + 1)
    } else {
        scan_lines(data, i + 1, start)
    }
}

/// The lines of a buffer, split at each newline byte (carriage returns are
/// kept).
pub open spec fn lines_of(data: Seq<u8>) -> Seq<(int, int)> {
    scan_lines(data, 0, 0)
}

/// The lines left once the first `skip` are dropped.
pub open spec fn records_of(data: Seq<u8>, skip: int) -> Seq<(int, int)> {
    let all = lines_of(data);
    if skip < all.len() {
        all.skip(skip)
    } else {
        seq![]
    }
}

/// The line at `rec` (offset, length) is well-formed UTF-8.
pub open spec fn line_utf8(data: Seq<u8>, rec: (int, int)) -> bool {
    valid_utf8(data.subrange(rec.0, rec.0 + rec.1))
}

/// Record `k`, at `rec`, is where reading the entries stopped with `err`:
/// it is not UTF-8, or `extract` yielded nothing for it.
pub open spec fn failed_at<F: Fn(usize, usize) -> Option<(GeoBBox, u32, u32)>>(
    data: Seq<u8>,
    rec: (int, int),
    k: usize,
    err: GeoFileError,
    extract: F,
) -> bool {
    ||| err == GeoFileError::NotUtf8(k) && !line_utf8(data, rec)
    ||| err == GeoFileError::Parse(k) && line_utf8(data, rec) && extract.ensures(
        (rec.0 as usize, rec.1 as usize),
        None,
    )
}

/// Relies on `std::str::from_utf8`, which fails exactly when the bytes are
/// not well-formed UTF-8.
#[verifier::external_body]
fn is_utf8(b: &[u8]) -> (r: bool)
    ensures
        r == valid_utf8(b@),
{
    std::str::from_utf8(b).is_ok()
}

/// Every line lies inside the data.
proof fn lemma_scan_within(data: Seq<u8>, i: int, start: int)
    requires
        0 <= start <= i <= data.len(),
    ensures
        forall|k: int|
            0 <= k < scan_lines(data, i, start).len() ==> 0 <= #[trigger] scan_lines(data, i, start)[k].0
                && 0 <= scan_lines(data, i, start)[k].1 && scan_lines(data, i, start)[k].0
                + scan_lines(data, i, start)[k].1 <= data.len(),
    decreases data.len() - i,
{
    if i < data.len() {
        if data[i] == 0x0a {
            lemma_scan_within(data, i + 1, i + 1);
            let rest = scan_lines(data, i + 1, i + 1);
            let sl = scan_lines(data, i, start);
            assert(sl == seq![(start, i - start)] + rest);
            assert forall|k: int| 0 <= k < sl.len() implies 0 <= #[trigger] sl[k].0 && 0 <= sl[k].1
                && sl[k].0 + sl[k].1 <= data.len() by {
                if k > 0 {
                    assert(sl[k] == rest[k - 1]);
                }
            }
        } else {
            lemma_scan_within(data, i + 1, start);
            assert(scan_lines(data, i, start) == scan_lines(data, i + 1, start));
        }
    } else {
        let sl = scan_lines(data, i, start);
        if start < data.len() {
            assert(sl == seq![(start, data.len() - start)]);
            assert(sl[0] == (start, data.len() - start));
        } else {
            assert(sl.len() == 0);
        }
    }
}

/// A loaded source: its bytes, how its lines yield boxes, and how many
/// leading lines are headers.
#[derive(Debug)]
pub struct GeoFile {
    pub data: Vec<u8>,
    pub extractor: Extractor,
    pub skip_lines: usize,
}

impl GeoFile {
    /// Opens a source from its name and its bytes as stored: `.br` and
    /// `.gz` are decompressed, and the extension before them (or the only
    /// one) picks the extractor.
    pub fn load(name: &[u8], raw: Vec<u8>, opt: GeoFileOptions) -> (r: Result<Self, GeoFileError>)
        requires
            name@.len() < 0x7fff_ffff_ffff_ffff,
        ensures
            ({
                let c = if has_ext(name@, seq![0x62u8, 0x72u8]) {
                    Compression::Brotli
                } else if has_ext(name@, seq![0x67u8, 0x7au8]) {
                    Compression::Gzip
                } else {
                    Compression::Plain
                };
                let base = if c == Compression::Plain {
                    name@
                } else {
                    strip_ext(name@)
                };
                let known = has_ext(base, ext_geojsonl()) || has_ext(base, ext_geojson())
                    || has_ext(base, ext_csv()) || has_ext(base, ext_tsv());
                &&& !known <==> r == Err::<Self, GeoFileError>(
                    GeoFileError::UnsupportedExtension,
                )
                &&& r == Err::<Self, GeoFileError>(GeoFileError::Decompress) <==> known
                    && source_bytes(raw@, c) is None
                &&& r is Ok <==> known && source_bytes(raw@, c) is Some
                &&& r matches Ok(f) ==> source_bytes(raw@, c) == Some(f.data@) && f.skip_lines
                    == or_default(opt.skip_lines, 0) && picks(base, opt, f.extractor)
            }),
    {
        let (base, compression) = get_compression(name);
        let extractor = match get_extractor(base.as_slice(), &opt) {
            Ok(x) => x,
            Err(e) => {
                return Err(e);
            },
        };
        let data = match compression {
            Compression::Brotli => match unbrotli(raw.as_slice()) {
                Some(d) => d,
                None => {
                    return Err(GeoFileError::Decompress);
                },
            },
            Compression::Gzip => match gunzip(raw.as_slice()) {
                Some(d) => d,
                None => {
                    return Err(GeoFileError::Decompress);
                },
            },
            Compression::Plain => raw,
        };
        let skip_lines = match opt.skip_lines {
            Some(n) => n,
            None => 0,
        };
        Ok(GeoFile { data, extractor, skip_lines })
    }

    /// The bytes at `start..start + length`.
    pub fn read_range(&self, start: usize, length: usize) -> (r: &[u8])
        requires
            start + length <= self.data@.len(),
        ensures
            r@ == self.data@.subrange(start as int, start + length),
    {
        assert(self.data@.len() == self.data.len());
        &self.data.as_slice()[start..start + length]
    }

    /// The offset and length of every record line: each line of the data
    /// after the first `skip_lines`.
    pub fn line_spans(&self) -> (r: Vec<(usize, usize)>)
        ensures
            r@.len() == records_of(self.data@, self.skip_lines as int).len(),
            forall|k: int|
                0 <= k < r@.len() ==> (#[trigger] r@[k]).0 == records_of(
                    self.data@,
                    self.skip_lines as int,
                )[k].0 && r@[k].1 == records_of(self.data@, self.skip_lines as int)[k].1
                    && r@[k].0 + r@[k].1 <= self.data@.len(),
    {
        let data = self.data.as_slice();
        let skip = self.skip_lines;
        let ghost all = lines_of(data@);
        let ghost mut seen: Seq<(int, int)> = seq![];
        let mut out: Vec<(usize, usize)> = Vec::new();
        let mut count: usize = 0;
        let mut start: usize = 0;
        let mut i: usize = 0;
        while i < data.len()
            invariant
                data@ == self.data@,
                skip == self.skip_lines,
                data@.len() == data.len(),
                0 <= start <= i <= data.len(),
                all == seen + scan_lines(data@, i as int, start as int),
                count == seen.len(),
                count <= start,
                out@.len() == (if skip < count {
                    count - skip
                } else {
                    0
                }),
                forall|k: int|
                    0 <= k < out@.len() ==> (#[trigger] out@[k]).0 == seen[k + skip].0 && out@[k].1
                        == seen[k + skip].1,
            decreases data.len() - i,
        {
            if data[i] == 0x0a {
                proof {
                    assert(seen + scan_lines(data@, i as int, start as int) =~= seen.push(
                        (start as int, i - start),
                    ) + scan_lines(data@, i + 1, i + 1));
                    seen = seen.push((start as int, i - start));
                }
                if count >= skip {
                    out.push((start, i - start));
                }
                count += 1;
                start = i + 1;
            }
            i += 1;
        }
        if start < data.len() {
            proof {
                seen = seen.push((start as int, data.len() - start));
            }
            if count >= skip {
                out.push((start, data.len() - start));
            }
            count += 1;
        }
        proof {
            assert(all =~= seen);
            lemma_scan_within(data@, 0, 0);
            let recs = records_of(self.data@, self.skip_lines as int);
            if skip < seen.len() {
                assert forall|k: int| 0 <= k < recs.len() implies recs[k] == seen[k + skip] by {}
            }
        }
        out
    }

    /// The entries of the source: for each record line, in order, its
    /// offset and length and what `extract` yields for that range of
    /// `data`. Fails on the first record that is not UTF-8 or for which
    /// `extract` yields nothing.
    pub fn get_entries<F: Fn(usize, usize) -> Option<(GeoBBox, u32, u32)>>(&self, extract: F) -> (r:
        Result<Vec<GeoEntry>, GeoFileError>)
        requires
            forall|s: usize, l: usize| extract.requires((s, l)),
        ensures
            r matches Ok(es) ==> {
                let recs = records_of(self.data@, self.skip_lines as int);
                &&& es@.len() == recs.len()
                &&& forall|k: int|
                    0 <= k < es@.len() ==> {
                        let e = #[trigger] es@[k];
                        &&& e.start == recs[k].0
                        &&& e.length == recs[k].1
                        &&& line_utf8(self.data@, recs[k])
                        &&& extract.ensures((e.start, e.length), Some((e.bbox, e.sum_x, e.sum_y)))
                    }
            },
            r matches Err(err) ==> exists|k: usize|
                k < records_of(self.data@, self.skip_lines as int).len() && #[trigger] failed_at(
                    self.data@,
                    records_of(self.data@, self.skip_lines as int)[k as int],
                    k,
                    err,
                    extract,
                ),
    {
        let spans = self.line_spans();
        let ghost recs = records_of(self.data@, self.skip_lines as int);
        let mut entries: Vec<GeoEntry> = Vec::new();
        let mut k: usize = 0;
        while k < spans.len()
            invariant
                forall|s: usize, l: usize| extract.requires((s, l)),
                recs == records_of(self.data@, self.skip_lines as int),
                spans@.len() == recs.len(),
                forall|j: int|
                    0 <= j < spans@.len() ==> (#[trigger] spans@[j]).0 == recs[j].0 && spans@[j].1
                        == recs[j].1 && spans@[j].0 + spans@[j].1 <= self.data@.len(),
                0 <= k <= spans@.len(),
                entries@.len() == k,
                forall|j: int|
                    0 <= j < k ==> {
                        let e = #[trigger] entries@[j];
                        &&& e.start == recs[j].0
                        &&& e.length == recs[j].1
                        &&& line_utf8(self.data@, recs[j])
                        &&& extract.ensures((e.start, e.length), Some((e.bbox, e.sum_x, e.sum_y)))
                    },
            decreases spans@.len() - k,
        {
            let (s, l) = spans[k];
            proof {
                assert(spans@[k as int].0 + spans@[k as int].1 <= self.data@.len());
                assert(self.data@.len() == self.data.len());
            }
            if !is_utf8(&self.data.as_slice()[s..s + l]) {
                assert(failed_at(self.data@, recs[k as int], k, GeoFileError::NotUtf8(k), extract));
                return Err(GeoFileError::NotUtf8(k));
            }
            match extract(s, l) {
                Some((bbox, sum_x, sum_y)) => {
                    entries.push(GeoEntry { bbox, start: s, length: l, sum_x, sum_y });
                },
                None => {
                    assert(recs[k as int].0 as usize == s && recs[k as int].1 as usize == l);
                    assert(failed_at(self.data@, recs[k as int], k, GeoFileError::Parse(k), extract));
                    return Err(GeoFileError::Parse(k));
                },
            }
            k += 1;
        }
        Ok(entries)
    }
}

/// `sep` occurs in `s` at position `q`.
pub open spec fn occurs_at(s: Seq<u8>, sep: Seq<u8>, q: int) -> bool {
    0 <= q && q + sep.len() <= s.len() && s.subrange(q, q + sep.len()) == sep
}

/// The first position at or after `p` where `sep` occurs in `s`, or -1.
pub open spec fn first_match(s: Seq<u8>, sep: Seq<u8>, p: int) -> int
    decreases s.len() + 1 - p,
{
    if p < 0 || p + sep.len() > s.len() {
        -1
    } else if occurs_at(s, sep, p) {
        p
    } else {
        first_match(s, sep, p + 1)
    }
}

/// The fields of `s[p..)` split at each occurrence of a non-empty `sep`,
/// left to right, as `(start, end)` pairs; an empty `sep` leaves one field.
pub open spec fn split_from(s: Seq<u8>, sep: Seq<u8>, p: int) -> Seq<(int, int)>
    decreases s.len() - p,
{
    let q = first_match(s, sep, p);
    if sep.len() == 0 || q < p || p > s.len() || q + sep.len() > s.len() {
        seq![(p, s.len() as int)]
    } else {
        seq![(p, q)] + split_from(s, sep, q + sep.len())
    }
}

proof fn lemma_first_match(s: Seq<u8>, sep: Seq<u8>, p: int)
    requires
        0 <= p,
    ensures
        first_match(s, sep, p) == -1 || (p <= first_match(s, sep, p) && occurs_at(
            s,
            sep,
            first_match(s, sep, p),
        )),
    decreases s.len() + 1 - p,
{
    if p + sep.len() <= s.len() && !occurs_at(s, sep, p) {
        lemma_first_match(s, sep, p + 1);
    }
}

fn occurs(s: &[u8], sep: &[u8], q: usize) -> (r: bool)
    requires
        q + sep@.len() <= s@.len(),
    ensures
        r == occurs_at(s@, sep@, q as int),
{
    assert(s@.len() == s.len());
    let mut i: usize = 0;
    while i < sep.len()
        invariant
            q + sep@.len() <= s@.len(),
            0 <= i <= sep@.len(),
            forall|j: int| 0 <= j < i ==> s@[q + j] == sep@[j],
            s@.len() == s.len(),
        decreases sep.len() - i,
    {
        if s[q + i] != sep[i] {
            assert(s@.subrange(q as int, q + sep@.len())[i as int] != sep@[i as int]);
            return false;
        }
        i += 1;
    }
    assert(s@.subrange(q as int, q + sep@.len()) =~= sep@);
    true
}

/// The start and end of field `col` of `line` split at `sep`, or `None`
/// when the line has fewer fields.
pub fn field_span(line: &[u8], sep: &[u8], col: usize) -> (r: Option<(usize, usize)>)
    ensures
        col < split_from(line@, sep@, 0).len() ==> (r matches Some((a, b)) && a == split_from(
            line@,
            sep@,
            0,
        )[col as int].0 && b == split_from(line@, sep@, 0)[col as int].1),
        col >= split_from(line@, sep@, 0).len() ==> r is None,
{
    let n = line.len();
    let m = sep.len();
    assert(line@.len() == n && sep@.len() == m);
    let mut p: usize = 0;
    let mut k: usize = 0;
    let mut q: usize = 0;
    // `p` starts field `k`; `q` scans for the separator that ends it
    loop
        invariant
            line@.len() == n,
            sep@.len() == m,
            k <= col,
            p <= q,
            p <= n,
            m > 0 ==> q <= n,
            split_from(line@, sep@, 0).len() >= k,
            split_from(line@, sep@, 0).skip(k as int) == split_from(line@, sep@, p as int),
            m > 0 && q + m <= n ==> first_match(line@, sep@, p as int) == first_match(
                line@,
                sep@,
                q as int,
            ),
            m > 0 && q + m > n ==> first_match(line@, sep@, p as int) == -1,
        decreases col - k, n - q,
    {
        if m == 0 || m > n - q {
            proof {
                assert(split_from(line@, sep@, p as int) == seq![(p as int, n as int)]);
                assert(split_from(line@, sep@, 0).skip(k as int).len() == 1);
                assert(split_from(line@, sep@, 0).len() == k + 1);
                assert(split_from(line@, sep@, 0).skip(k as int)[0] == split_from(line@, sep@, 0)[k as int]);
            }
            if k == col {
                return Some((p, n));
            }
            return None;
        }
        if occurs(line, sep, q) {
            proof {
                assert(first_match(line@, sep@, q as int) == q);
                lemma_first_match(line@, sep@, p as int);
                let rest = split_from(line@, sep@, q + m);
                assert(split_from(line@, sep@, p as int) == seq![(p as int, q as int)] + rest);
                assert(split_from(line@, sep@, 0).skip(k as int)[0] == (p as int, q as int));
                assert(split_from(line@, sep@, 0).skip(k + 1) =~= split_from(line@, sep@, p as int).skip(1));
                assert(split_from(line@, sep@, p as int).skip(1) =~= rest);
            }
            if k == col {
                return Some((p, q));
            }
            k += 1;
            p = q + m;
            q = p;
            proof {
                if q + m > n {
                    assert(first_match(line@, sep@, p as int) == -1);
                }
            }
        } else {
            proof {
                assert(first_match(line@, sep@, q as int) == first_match(line@, sep@, q + 1));
                if q + 1 + m > n {
                    assert(first_match(line@, sep@, q + 1) == -1);
                }
            }
            q += 1;
        }
    }
}

} // verus!
