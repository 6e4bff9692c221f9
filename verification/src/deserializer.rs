//! Reading a dataset from its serialized form.
//!
//! A dataset is a sequence of bytes; all numbers in it are big-endian:
//!
//! - the version of the format, in 16 bits;
//! - the number of registered sizes, in 32 bits, and then for each of them
//!   the region id as a string and the size in 64 bits;
//! - the width of the raster, in 32 bits;
//! - the number of cells, in 32 bits, and then each cell.
//!
//! A cell is the number of its containing ids, in 8 bits, and those ids as
//! strings; then the number of its intersecting areas, in 8 bits, and for
//! each of them the region id as a string, the outer rings and the inner
//! rings. A list of rings is their number, in 8 bits, and the rings; a ring
//! is the number of its points, in 32 bits, and for each point `x` and `y`
//! in 16 bits each. A string is its length in bytes, in 16 bits, and then
//! that many bytes of UTF-8.
//!
//! The functions here read from a slice of bytes that they shorten from the
//! front by what they have read. When a function fails, it is not said how
//! much it has read.

use crate::cell::{areas_view, Cell, CellView};
use crate::multipolygon::{rings_view, Multipolygon, MultipolygonView, Point};
use crate::sizes::GeometrySizes;
use crate::text::strings_view;
use crate::{raster_view, CountryBoundaries, GridView};
use vstd::prelude::*;
use vstd::slice::{slice_subrange, slice_to_vec};
use vstd::utf8::{decode_utf8, valid_utf8};

verus! {

/// Why a dataset could not be read.
#[derive(Debug, Copy, Clone, PartialEq, Eq)]
pub enum ReadError {
    /// The bytes end before the dataset is complete.
    UnexpectedEof,
    /// The dataset is of another version of the format than the `expected` one.
    WrongVersion { expected: u16, actual: u16 },
    /// The bytes of a string are not valid UTF-8.
    InvalidUtf8,
    /// A count is larger than the largest size on this platform.
    Unsupported,
}

/// The version of the format that this library reads.
pub const VERSION: u16 = 2;

/// What reading a value from a sequence of bytes comes to: the value and
/// the bytes behind it, or the reason why there is no such value.
pub type Parsed<T> = Result<(T, Seq<u8>), ReadError>;

/// The value `value` with the bytes `rest` behind it.
pub open spec fn parsed<T>(value: T, rest: Seq<u8>) -> Parsed<T> {
    Ok((value, rest))
}

/// The first byte.
pub open spec fn parse_u8(s: Seq<u8>) -> Parsed<u8> {
    if s.len() < 1 {
        Err(ReadError::UnexpectedEof)
    } else {
        Ok((s[0], s.skip(1)))
    }
}

/// The first two bytes as a big-endian number.
pub open spec fn parse_u16(s: Seq<u8>) -> Parsed<u16> {
    if s.len() < 2 {
        Err(ReadError::UnexpectedEof)
    } else {
        Ok(((s[0] * 0x100 + s[1]) as u16, s.skip(2)))
    }
}

/// The first four bytes as a big-endian number.
pub open spec fn parse_u32(s: Seq<u8>) -> Parsed<u32> {
    if s.len() < 4 {
        Err(ReadError::UnexpectedEof)
    } else {
        Ok(((s[0] * 0x100_0000 + s[1] * 0x1_0000 + s[2] * 0x100 + s[3]) as u32, s.skip(4)))
    }
}

/// The first eight bytes as a big-endian number.
pub open spec fn parse_u64(s: Seq<u8>) -> Parsed<u64> {
    if s.len() < 8 {
        Err(ReadError::UnexpectedEof)
    } else {
        Ok(
            (
                (s[0] * 0x100_0000_0000_0000 + s[1] * 0x1_0000_0000_0000 + s[2] * 0x100_0000_0000
                    + s[3] * 0x1_0000_0000 + s[4] * 0x100_0000 + s[5] * 0x1_0000 + s[6] * 0x100
                    + s[7]) as u64,
                s.skip(8),
            ),
        )
    }
}

/// A count of 32 bits, as a size of this platform.
pub open spec fn parse_usize32(s: Seq<u8>) -> Parsed<usize> {
    match parse_u32(s) {
        Err(e) => Err(e),
        Ok((count, rest)) => if count <= usize::MAX {
            Ok((count as usize, rest))
        } else {
            Err(ReadError::Unsupported)
        },
    }
}

/// A string: its length in bytes, then its UTF-8 encoding.
pub open spec fn parse_string(s: Seq<u8>) -> Parsed<Seq<char>> {
    match parse_u16(s) {
        Err(e) => Err(e),
        Ok((length, rest)) => if rest.len() < length {
            Err(ReadError::UnexpectedEof)
        } else if !valid_utf8(rest.take(length as int)) {
            Err(ReadError::InvalidUtf8)
        } else {
            Ok((decode_utf8(rest.take(length as int)), rest.skip(length as int)))
        },
    }
}

/// `n` values one behind the other, each read by `item`.
pub open spec fn parse_repeated<T>(
    item: spec_fn(Seq<u8>) -> Parsed<T>,
    n: nat,
    s: Seq<u8>,
) -> Parsed<Seq<T>>
    decreases n,
{
    if n == 0 {
        Ok((Seq::empty(), s))
    } else {
        match parse_repeated(item, (n - 1) as nat, s) {
            Err(e) => Err(e),
            Ok((front, rest)) => match item(rest) {
                Err(e) => Err(e),
                Ok((last, rest)) => Ok((front.push(last), rest)),
            },
        }
    }
}

/// A point: `x`, then `y`.
pub open spec fn parse_point(s: Seq<u8>) -> Parsed<Point> {
    match parse_u16(s) {
        Err(e) => Err(e),
        Ok((x, rest)) => match parse_u16(rest) {
            Err(e) => Err(e),
            Ok((y, rest)) => Ok((Point { x, y }, rest)),
        },
    }
}

/// [`parse_point`] as a value.
pub open spec fn point_parser() -> spec_fn(Seq<u8>) -> Parsed<Point> {
    |s: Seq<u8>| parse_point(s)
}

/// A ring: the number of its points, then the points.
pub open spec fn parse_ring(s: Seq<u8>) -> Parsed<Seq<Point>> {
    match parse_usize32(s) {
        Err(e) => Err(e),
        Ok((count, rest)) => parse_repeated(point_parser(), count as nat, rest),
    }
}

/// [`parse_ring`] as a value.
pub open spec fn ring_parser() -> spec_fn(Seq<u8>) -> Parsed<Seq<Point>> {
    |s: Seq<u8>| parse_ring(s)
}

/// A list of rings: their number, then the rings.
pub open spec fn parse_polygons(s: Seq<u8>) -> Parsed<Seq<Seq<Point>>> {
    match parse_u8(s) {
        Err(e) => Err(e),
        Ok((count, rest)) => parse_repeated(ring_parser(), count as nat, rest),
    }
}

/// An intersecting area: the region id, the outer rings, the inner rings.
pub open spec fn parse_areas(s: Seq<u8>) -> Parsed<(Seq<char>, MultipolygonView)> {
    match parse_string(s) {
        Err(e) => Err(e),
        Ok((id, rest)) => match parse_polygons(rest) {
            Err(e) => Err(e),
            Ok((outer, rest)) => match parse_polygons(rest) {
                Err(e) => Err(e),
                Ok((inner, rest)) => Ok(((id, MultipolygonView { outer, inner }), rest)),
            },
        },
    }
}

/// [`parse_string`] as a value.
pub open spec fn string_parser() -> spec_fn(Seq<u8>) -> Parsed<Seq<char>> {
    |s: Seq<u8>| parse_string(s)
}

/// [`parse_areas`] as a value.
pub open spec fn areas_parser() -> spec_fn(Seq<u8>) -> Parsed<(Seq<char>, MultipolygonView)> {
    |s: Seq<u8>| parse_areas(s)
}

/// A cell: the number of its containing ids and those ids, then the number
/// of its intersecting areas and those areas.
pub open spec fn parse_cell(s: Seq<u8>) -> Parsed<CellView> {
    match parse_u8(s) {
        Err(e) => Err(e),
        Ok((id_count, rest)) => match parse_repeated(string_parser(), id_count as nat, rest) {
            Err(e) => Err(e),
            Ok((containing_ids, rest)) => match parse_u8(rest) {
                Err(e) => Err(e),
                Ok((area_count, rest)) => match parse_repeated(
                    areas_parser(),
                    area_count as nat,
                    rest,
                ) {
                    Err(e) => Err(e),
                    Ok((intersecting_areas, rest)) => Ok(
                        (CellView { containing_ids, intersecting_areas }, rest),
                    ),
                },
            },
        },
    }
}

/// [`parse_cell`] as a value.
pub open spec fn cell_parser() -> spec_fn(Seq<u8>) -> Parsed<CellView> {
    |s: Seq<u8>| parse_cell(s)
}

/// A registered size: the region id, then the size.
pub open spec fn parse_size(s: Seq<u8>) -> Parsed<(Seq<char>, u64)> {
    match parse_string(s) {
        Err(e) => Err(e),
        Ok((id, rest)) => match parse_u64(rest) {
            Err(e) => Err(e),
            Ok((size, rest)) => Ok(((id, size), rest)),
        },
    }
}

/// [`parse_size`] as a value.
pub open spec fn size_parser() -> spec_fn(Seq<u8>) -> Parsed<(Seq<char>, u64)> {
    |s: Seq<u8>| parse_size(s)
}

/// The version; any other than [`VERSION`] is an error.
pub open spec fn parse_version(s: Seq<u8>) -> Parsed<u16> {
    match parse_u16(s) {
        Err(e) => Err(e),
        Ok((version, rest)) => if version != VERSION {
            Err(ReadError::WrongVersion { expected: VERSION, actual: version })
        } else {
            Ok((version, rest))
        },
    }
}

/// A dataset: the version, the registered sizes, the width of the raster,
/// the cells.
pub open spec fn parse_grid(s: Seq<u8>) -> Parsed<GridView> {
    match parse_version(s) {
        Err(e) => Err(e),
        Ok((_, rest)) => match parse_usize32(rest) {
            Err(e) => Err(e),
            Ok((size_count, rest)) => match parse_repeated(size_parser(), size_count as nat, rest) {
                Err(e) => Err(e),
                Ok((geometry_sizes, rest)) => match parse_usize32(rest) {
                    Err(e) => Err(e),
                    Ok((raster_width, rest)) => match parse_usize32(rest) {
                        Err(e) => Err(e),
                        Ok((cell_count, rest)) => match parse_repeated(
                            cell_parser(),
                            cell_count as nat,
                            rest,
                        ) {
                            Err(e) => Err(e),
                            Ok((raster, rest)) => Ok(
                                (
                                    GridView {
                                        raster,
                                        raster_width: raster_width as int,
                                        geometry_sizes,
                                    },
                                    rest,
                                ),
                            ),
                        },
                    },
                },
            },
        },
    }
}

/// Once one of the values fails to read, so does every longer list of them,
/// for the same reason.
proof fn lemma_parse_repeated_fails<T>(
    item: spec_fn(Seq<u8>) -> Parsed<T>,
    failed: nat,
    n: nat,
    s: Seq<u8>,
)
    requires
        failed <= n,
        parse_repeated(item, failed, s) is Err,
    ensures
        parse_repeated(item, n, s) == parse_repeated(item, failed, s),
    decreases n,
{
    if failed < n {
        lemma_parse_repeated_fails(item, failed, (n - 1) as nat, s);
    }
}

/// Where the first `done` values have been read and the next one fails to
/// read, the list of `n` values fails to read for the same reason.
proof fn lemma_parse_repeated_next_fails<T>(
    item: spec_fn(Seq<u8>) -> Parsed<T>,
    done: nat,
    n: nat,
    s: Seq<u8>,
)
    requires
        done < n,
        parse_repeated(item, done, s) is Ok,
        item(parse_repeated(item, done, s)->Ok_0.1) is Err,
    ensures
        parse_repeated(item, n, s) is Err,
        parse_repeated(item, n, s)->Err_0 == item(parse_repeated(item, done, s)->Ok_0.1)->Err_0,
{
    assert(parse_repeated(item, done + 1, s) is Err);
    lemma_parse_repeated_fails(item, done + 1, n, s);
}

/// The text that `bytes` encode in UTF-8, or `None` where they encode none.
///
/// This is `String::from_utf8` of the standard library, which checks that
/// the bytes are valid UTF-8 and then takes them over as the string's
/// content. The contract states that in terms of the definition of UTF-8
/// in `vstd::utf8`; it is not proved.
#[verifier::external_body]
fn string_from_utf8(bytes: Vec<u8>) -> (r: Option<String>)
    ensures
        match r {
            Some(text) => valid_utf8(bytes@) && text@ == decode_utf8(bytes@),
            None => !valid_utf8(bytes@),
        },
{
    match String::from_utf8(bytes) {
        Ok(text) => Some(text),
        Err(_) => None,
    }
}

/// Reads one byte.
pub fn read_u8(reader: &mut &[u8]) -> (r: Result<u8, ReadError>)
    ensures
        match parse_u8(old(reader)@) {
            Ok((value, rest)) => r == Ok::<u8, ReadError>(value) && final(reader)@ == rest,
            Err(e) => r == Err::<u8, ReadError>(e),
        },
{
    let data: &[u8] = *reader;
    if data.len() < 1 {
        return Err(ReadError::UnexpectedEof);
    }
    let value = data[0];
    *reader = slice_subrange(data, 1, data.len());
    Ok(value)
}

/// Reads a big-endian number of 16 bits.
pub fn read_u16(reader: &mut &[u8]) -> (r: Result<u16, ReadError>)
    ensures
        match parse_u16(old(reader)@) {
            Ok((value, rest)) => r == Ok::<u16, ReadError>(value) && final(reader)@ == rest,
            Err(e) => r == Err::<u16, ReadError>(e),
        },
{
    let data: &[u8] = *reader;
    if data.len() < 2 {
        return Err(ReadError::UnexpectedEof);
    }
    let value: u16 = data[0] as u16 * 0x100 + data[1] as u16;
    *reader = slice_subrange(data, 2, data.len());
    Ok(value)
}

/// Reads a big-endian number of 32 bits.
pub fn read_u32(reader: &mut &[u8]) -> (r: Result<u32, ReadError>)
    ensures
        match parse_u32(old(reader)@) {
            Ok((value, rest)) => r == Ok::<u32, ReadError>(value) && final(reader)@ == rest,
            Err(e) => r == Err::<u32, ReadError>(e),
        },
{
    let data: &[u8] = *reader;
    if data.len() < 4 {
        return Err(ReadError::UnexpectedEof);
    }
    let value: u32 = data[0] as u32 * 0x100_0000 + data[1] as u32 * 0x1_0000 + data[2] as u32
        * 0x100 + data[3] as u32;
    *reader = slice_subrange(data, 4, data.len());
    Ok(value)
}

/// Reads a count of 32 bits as a size of this platform.
pub fn read_usize32(reader: &mut &[u8]) -> (r: Result<usize, ReadError>)
    ensures
        match parse_usize32(old(reader)@) {
            Ok((value, rest)) => r == Ok::<usize, ReadError>(value) && final(reader)@ == rest,
            Err(e) => r == Err::<usize, ReadError>(e),
        },
{
    let count = read_u32(reader)?;
    if count as u64 > usize::MAX as u64 {
        return Err(ReadError::Unsupported);
    }
    Ok(count as usize)
}

/// Reads the bit pattern of a binary64 number.
pub fn read_f64(reader: &mut &[u8]) -> (r: Result<u64, ReadError>)
    ensures
        match parse_u64(old(reader)@) {
            Ok((value, rest)) => r == Ok::<u64, ReadError>(value) && final(reader)@ == rest,
            Err(e) => r == Err::<u64, ReadError>(e),
        },
{
    let data: &[u8] = *reader;
    if data.len() < 8 {
        return Err(ReadError::UnexpectedEof);
    }
    let value: u64 = data[0] as u64 * 0x100_0000_0000_0000 + data[1] as u64 * 0x1_0000_0000_0000
        + data[2] as u64 * 0x100_0000_0000 + data[3] as u64 * 0x1_0000_0000 + data[4] as u64
        * 0x100_0000 + data[5] as u64 * 0x1_0000 + data[6] as u64 * 0x100 + data[7] as u64;
    *reader = slice_subrange(data, 8, data.len());
    Ok(value)
}

/// Reads a string.
pub fn read_string(reader: &mut &[u8]) -> (r: Result<String, ReadError>)
    ensures
        match parse_string(old(reader)@) {
            Ok((value, rest)) => r matches Ok(text) && text@ == value && final(reader)@ == rest,
            Err(e) => r == Err::<String, ReadError>(e),
        },
{
    let length = read_u16(reader)? as usize;
    let data: &[u8] = *reader;
    if data.len() < length {
        return Err(ReadError::UnexpectedEof);
    }
    let bytes = slice_to_vec(slice_subrange(data, 0, length));
    *reader = slice_subrange(data, length, data.len());
    match string_from_utf8(bytes) {
        Some(text) => Ok(text),
        None => Err(ReadError::InvalidUtf8),
    }
}

/// Reads a point.
pub fn read_point(reader: &mut &[u8]) -> (r: Result<Point, ReadError>)
    ensures
        match parse_point(old(reader)@) {
            Ok((value, rest)) => r == Ok::<Point, ReadError>(value) && final(reader)@ == rest,
            Err(e) => r == Err::<Point, ReadError>(e),
        },
{
    let x = read_u16(reader)?;
    let y = read_u16(reader)?;
    Ok(Point { x, y })
}

/// Reads a ring.
#[verifier::loop_isolation(false)]
pub fn read_ring(reader: &mut &[u8]) -> (r: Result<Vec<Point>, ReadError>)
    ensures
        match parse_ring(old(reader)@) {
            Ok((value, rest)) => r matches Ok(ring) && ring@ == value && final(reader)@ == rest,
            Err(e) => r == Err::<Vec<Point>, ReadError>(e),
        },
{
    let size = read_usize32(reader)?;
    let ghost start = reader@;
    let mut ring: Vec<Point> = Vec::new();
    let mut i: usize = 0;
    while i < size
        invariant
            i <= size,
            parse_repeated(point_parser(), i as nat, start) == parsed(ring@, reader@),
        decreases size - i,
    {
        proof {
            if parse_point(reader@) is Err {
                lemma_parse_repeated_next_fails(point_parser(), i as nat, size as nat, start);
            }
        }
        let point = read_point(reader)?;
        ring.push(point);
        i += 1;
    }
    Ok(ring)
}

/// Reads a list of rings.
#[verifier::loop_isolation(false)]
pub fn read_polygons(reader: &mut &[u8]) -> (r: Result<Vec<Vec<Point>>, ReadError>)
    ensures
        match parse_polygons(old(reader)@) {
            Ok((value, rest)) => r matches Ok(rings) && rings_view(rings@) == value
                && final(reader)@ == rest,
            Err(e) => r == Err::<Vec<Vec<Point>>, ReadError>(e),
        },
{
    let size = read_u8(reader)? as usize;
    let ghost start = reader@;
    let mut polygons: Vec<Vec<Point>> = Vec::new();
    let mut i: usize = 0;
    assert(rings_view(polygons@) =~= Seq::empty());
    while i < size
        invariant
            i <= size,
            parse_repeated(ring_parser(), i as nat, start) == parsed(
                rings_view(polygons@),
                reader@,
            ),
        decreases size - i,
    {
        proof {
            if parse_ring(reader@) is Err {
                lemma_parse_repeated_next_fails(ring_parser(), i as nat, size as nat, start);
            }
        }
        let ring = read_ring(reader)?;
        let ghost before = rings_view(polygons@);
        polygons.push(ring);
        assert(rings_view(polygons@) =~= before.push(ring@));
        i += 1;
    }
    Ok(polygons)
}

/// Reads an intersecting area: a region id and the part of the region in
/// the cell.
pub fn read_areas(reader: &mut &[u8]) -> (r: Result<(String, Multipolygon), ReadError>)
    ensures
        match parse_areas(old(reader)@) {
            Ok((value, rest)) => r matches Ok(area) && (area.0@, area.1@) == value
                && final(reader)@ == rest,
            Err(e) => r == Err::<(String, Multipolygon), ReadError>(e),
        },
{
    let id = read_string(reader)?;
    let outer = read_polygons(reader)?;
    let inner = read_polygons(reader)?;
    Ok((id, Multipolygon { outer, inner }))
}

/// Reads a cell.
#[verifier::loop_isolation(false)]
pub fn read_cell(reader: &mut &[u8]) -> (r: Result<Cell, ReadError>)
    ensures
        match parse_cell(old(reader)@) {
            Ok((value, rest)) => r matches Ok(cell) && cell@ == value && final(reader)@ == rest,
            Err(e) => r == Err::<Cell, ReadError>(e),
        },
{
    let containing_ids_size = read_u8(reader)? as usize;
    let ghost ids_start = reader@;
    let mut containing_ids: Vec<String> = Vec::new();
    let mut i: usize = 0;
    assert(strings_view(containing_ids@) =~= Seq::empty());
    while i < containing_ids_size
        invariant
            i <= containing_ids_size,
            parse_repeated(string_parser(), i as nat, ids_start) == parsed(
                strings_view(containing_ids@),
                reader@,
            ),
        decreases containing_ids_size - i,
    {
        proof {
            if parse_string(reader@) is Err {
                lemma_parse_repeated_next_fails(
                    string_parser(),
                    i as nat,
                    containing_ids_size as nat,
                    ids_start,
                );
            }
        }
        let id = read_string(reader)?;
        let ghost before = strings_view(containing_ids@);
        containing_ids.push(id);
        assert(strings_view(containing_ids@) =~= before.push(id@));
        i += 1;
    }
    let intersecting_areas_size = read_u8(reader)? as usize;
    let ghost areas_start = reader@;
    let mut intersecting_areas: Vec<(String, Multipolygon)> = Vec::new();
    let mut j: usize = 0;
    assert(areas_view(intersecting_areas@) =~= Seq::empty());
    while j < intersecting_areas_size
        invariant
            j <= intersecting_areas_size,
            parse_repeated(areas_parser(), j as nat, areas_start) == parsed(
                areas_view(intersecting_areas@),
                reader@,
            ),
        decreases intersecting_areas_size - j,
    {
        proof {
            if parse_areas(reader@) is Err {
                lemma_parse_repeated_next_fails(
                    areas_parser(),
                    j as nat,
                    intersecting_areas_size as nat,
                    areas_start,
                );
            }
        }
        let area = read_areas(reader)?;
        let ghost before = areas_view(intersecting_areas@);
        let ghost added = (area.0@, area.1@);
        intersecting_areas.push(area);
        assert(areas_view(intersecting_areas@) =~= before.push(added));
        j += 1;
    }
    Ok(Cell { containing_ids, intersecting_areas })
}

/// Reads a dataset.
///
/// Fails where the bytes are not a dataset of the version [`VERSION`]:
/// where they end too early, where the version is another one, where a
/// string is not valid UTF-8.
#[verifier::loop_isolation(false)]
pub fn from_reader(reader: &mut &[u8]) -> (r: Result<CountryBoundaries, ReadError>)
    ensures
        match parse_grid(old(reader)@) {
            Ok((value, rest)) => r matches Ok(grid) && grid@ == value && final(reader)@ == rest,
            Err(e) => r == Err::<CountryBoundaries, ReadError>(e),
        },
{
    let version = read_u16(reader)?;
    if version != VERSION {
        return Err(ReadError::WrongVersion { expected: VERSION, actual: version });
    }
    let geometry_sizes_count = read_usize32(reader)?;
    let ghost sizes_start = reader@;
    let mut geometry_sizes = GeometrySizes::new();
    let mut i: usize = 0;
    while i < geometry_sizes_count
        invariant
            i <= geometry_sizes_count,
            parse_repeated(size_parser(), i as nat, sizes_start) == parsed(
                geometry_sizes.entries(),
                reader@,
            ),
        decreases geometry_sizes_count - i,
    {
        proof {
            if parse_size(reader@) is Err {
                lemma_parse_repeated_next_fails(
                    size_parser(),
                    i as nat,
                    geometry_sizes_count as nat,
                    sizes_start,
                );
            }
        }
        let id = read_string(reader)?;
        let size = read_f64(reader)?;
        geometry_sizes.insert(id, size);
        i += 1;
    }
    let raster_width = read_usize32(reader)?;
    let raster_size = read_usize32(reader)?;
    let ghost raster_start = reader@;
    let mut raster: Vec<Cell> = Vec::new();
    let mut j: usize = 0;
    assert(raster_view(raster@) =~= Seq::empty());
    while j < raster_size
        invariant
            j <= raster_size,
            parse_repeated(cell_parser(), j as nat, raster_start) == parsed(
                raster_view(raster@),
                reader@,
            ),
        decreases raster_size - j,
    {
        proof {
            if parse_cell(reader@) is Err {
                lemma_parse_repeated_next_fails(
                    cell_parser(),
                    j as nat,
                    raster_size as nat,
                    raster_start,
                );
            }
        }
        let cell = read_cell(reader)?;
        let ghost before = raster_view(raster@);
        raster.push(cell);
        assert(raster_view(raster@) =~= before.push(cell@));
        j += 1;
    }
    Ok(CountryBoundaries::new(raster, raster_width, geometry_sizes))
}

} // verus!
