//! The serialized form of a dataset, as a function from datasets to bytes,
//! and the proof that reading is its inverse.
//!
//! Nothing here runs: the functions say which bytes stand for which
//! dataset, and the laws say that [`crate::deserializer`] reads from those
//! bytes the dataset they stand for, and reads a dataset from no other
//! bytes than those that begin with its encoding.

use crate::cell::CellView;
use crate::deserializer::{
    areas_parser, cell_parser, parse_areas, parse_cell, parse_grid, parse_point, parse_polygons,
    parse_repeated, parse_ring, parse_size, parse_string, parse_u16, parse_u32, parse_u64,
    parse_u8, parse_usize32, parse_version, point_parser, ring_parser, size_parser, string_parser,
    parsed, Parsed, VERSION,
};
use crate::multipolygon::{MultipolygonView, Point};
use crate::GridView;
use vstd::prelude::*;
use vstd::utf8::{
    decode_utf8_encode_utf8, encode_utf8, encode_utf8_decode_utf8, encode_utf8_valid_utf8,
};

verus! {

/// One byte.
pub open spec fn encode_u8(value: u8) -> Seq<u8> {
    seq![value]
}

/// The two bytes of a number, the most significant one first.
pub open spec fn encode_u16(value: u16) -> Seq<u8> {
    seq![(value / 0x100) as u8, (value % 0x100) as u8]
}

/// The four bytes of a number, the most significant one first.
pub open spec fn encode_u32(value: u32) -> Seq<u8> {
    seq![
        (value / 0x100_0000) as u8,
        (value / 0x1_0000 % 0x100) as u8,
        (value / 0x100 % 0x100) as u8,
        (value % 0x100) as u8,
    ]
}

/// The eight bytes of a number, the most significant one first.
pub open spec fn encode_u64(value: u64) -> Seq<u8> {
    seq![
        (value / 0x100_0000_0000_0000) as u8,
        (value / 0x1_0000_0000_0000 % 0x100) as u8,
        (value / 0x100_0000_0000 % 0x100) as u8,
        (value / 0x1_0000_0000 % 0x100) as u8,
        (value / 0x100_0000 % 0x100) as u8,
        (value / 0x1_0000 % 0x100) as u8,
        (value / 0x100 % 0x100) as u8,
        (value % 0x100) as u8,
    ]
}

/// The values one behind the other, each encoded by `item`.
pub open spec fn encode_repeated<T>(item: spec_fn(T) -> Seq<u8>, values: Seq<T>) -> Seq<u8>
    decreases values.len(),
{
    if values.len() == 0 {
        Seq::empty()
    } else {
        encode_repeated(item, values.drop_last()) + item(values.last())
    }
}

/// Whether `item` can encode each of the values.
pub open spec fn each_encodable<T>(item: spec_fn(T) -> bool, values: Seq<T>) -> bool {
    forall|i: int| 0 <= i < values.len() ==> item(#[trigger] values[i])
}

/// A string can be encoded when its UTF-8 encoding has a length of 16 bits.
pub open spec fn encodable_string(text: Seq<char>) -> bool {
    encode_utf8(text).len() <= 0xffff
}

/// The length of the UTF-8 encoding, then the UTF-8 encoding.
pub open spec fn encode_string(text: Seq<char>) -> Seq<u8> {
    encode_u16(encode_utf8(text).len() as u16) + encode_utf8(text)
}

/// [`encode_string`] as a value.
pub open spec fn string_encoder() -> spec_fn(Seq<char>) -> Seq<u8> {
    |text: Seq<char>| encode_string(text)
}

/// [`encodable_string`] as a value.
pub open spec fn string_encodable() -> spec_fn(Seq<char>) -> bool {
    |text: Seq<char>| encodable_string(text)
}

/// `x`, then `y`.
pub open spec fn encode_point(point: Point) -> Seq<u8> {
    encode_u16(point.x) + encode_u16(point.y)
}

/// [`encode_point`] as a value.
pub open spec fn point_encoder() -> spec_fn(Point) -> Seq<u8> {
    |point: Point| encode_point(point)
}

/// A ring can be encoded when the number of its points has 32 bits.
pub open spec fn encodable_ring(ring: Seq<Point>) -> bool {
    ring.len() <= 0xffff_ffff
}

/// The number of points, then the points.
pub open spec fn encode_ring(ring: Seq<Point>) -> Seq<u8> {
    encode_u32(ring.len() as u32) + encode_repeated(point_encoder(), ring)
}

/// [`encode_ring`] as a value.
pub open spec fn ring_encoder() -> spec_fn(Seq<Point>) -> Seq<u8> {
    |ring: Seq<Point>| encode_ring(ring)
}

/// [`encodable_ring`] as a value.
pub open spec fn ring_encodable() -> spec_fn(Seq<Point>) -> bool {
    |ring: Seq<Point>| encodable_ring(ring)
}

/// A list of rings can be encoded when their number has 8 bits and each
/// ring can be encoded.
pub open spec fn encodable_polygons(rings: Seq<Seq<Point>>) -> bool {
    rings.len() <= 0xff && each_encodable(ring_encodable(), rings)
}

/// The number of rings, then the rings.
pub open spec fn encode_polygons(rings: Seq<Seq<Point>>) -> Seq<u8> {
    encode_u8(rings.len() as u8) + encode_repeated(ring_encoder(), rings)
}

/// An area can be encoded when its id and both lists of rings can.
pub open spec fn encodable_area(area: (Seq<char>, MultipolygonView)) -> bool {
    encodable_string(area.0) && encodable_polygons(area.1.outer) && encodable_polygons(
        area.1.inner,
    )
}

/// The id, the outer rings, the inner rings.
pub open spec fn encode_area(area: (Seq<char>, MultipolygonView)) -> Seq<u8> {
    encode_string(area.0) + encode_polygons(area.1.outer) + encode_polygons(area.1.inner)
}

/// [`encode_area`] as a value.
pub open spec fn area_encoder() -> spec_fn((Seq<char>, MultipolygonView)) -> Seq<u8> {
    |area: (Seq<char>, MultipolygonView)| encode_area(area)
}

/// [`encodable_area`] as a value.
pub open spec fn area_encodable() -> spec_fn((Seq<char>, MultipolygonView)) -> bool {
    |area: (Seq<char>, MultipolygonView)| encodable_area(area)
}

/// A cell can be encoded when the numbers of its containing ids and of its
/// intersecting areas have 8 bits, and each id and area can be encoded.
pub open spec fn encodable_cell(cell: CellView) -> bool {
    &&& cell.containing_ids.len() <= 0xff
    &&& each_encodable(string_encodable(), cell.containing_ids)
    &&& cell.intersecting_areas.len() <= 0xff
    &&& each_encodable(area_encodable(), cell.intersecting_areas)
}

/// The number of containing ids and those ids, then the number of
/// intersecting areas and those areas.
pub open spec fn encode_cell(cell: CellView) -> Seq<u8> {
    encode_u8(cell.containing_ids.len() as u8) + encode_repeated(
        string_encoder(),
        cell.containing_ids,
    ) + encode_u8(cell.intersecting_areas.len() as u8) + encode_repeated(
        area_encoder(),
        cell.intersecting_areas,
    )
}

/// [`encode_cell`] as a value.
pub open spec fn cell_encoder() -> spec_fn(CellView) -> Seq<u8> {
    |cell: CellView| encode_cell(cell)
}

/// [`encodable_cell`] as a value.
pub open spec fn cell_encodable() -> spec_fn(CellView) -> bool {
    |cell: CellView| encodable_cell(cell)
}

/// The id, then the size.
pub open spec fn encode_size(entry: (Seq<char>, u64)) -> Seq<u8> {
    encode_string(entry.0) + encode_u64(entry.1)
}

/// [`encode_size`] as a value.
pub open spec fn size_encoder() -> spec_fn((Seq<char>, u64)) -> Seq<u8> {
    |entry: (Seq<char>, u64)| encode_size(entry)
}

/// Whether the id of a registered size can be encoded, as a value.
pub open spec fn size_encodable() -> spec_fn((Seq<char>, u64)) -> bool {
    |entry: (Seq<char>, u64)| encodable_string(entry.0)
}

/// A dataset can be encoded when the number of its registered sizes, its
/// width and the number of its cells have 32 bits, and each id and each
/// cell can be encoded.
pub open spec fn encodable_grid(grid: GridView) -> bool {
    &&& grid.geometry_sizes.len() <= 0xffff_ffff
    &&& each_encodable(size_encodable(), grid.geometry_sizes)
    &&& 0 <= grid.raster_width <= 0xffff_ffff
    &&& grid.raster.len() <= 0xffff_ffff
    &&& each_encodable(cell_encodable(), grid.raster)
}

/// The version, the registered sizes, the width of the raster, the cells.
pub open spec fn encode_grid(grid: GridView) -> Seq<u8> {
    encode_u16(VERSION) + encode_u32(grid.geometry_sizes.len() as u32) + encode_repeated(
        size_encoder(),
        grid.geometry_sizes,
    ) + encode_u32(grid.raster_width as u32) + encode_u32(grid.raster.len() as u32)
        + encode_repeated(cell_encoder(), grid.raster)
}

/// Bytes that stand one behind the other can be grouped either way.
proof fn lemma_concat_assoc(a: Seq<u8>, b: Seq<u8>, c: Seq<u8>)
    ensures
        (a + b) + c == a + (b + c),
{
    assert((a + b) + c =~= a + (b + c));
}

/// Reading after encoding gives the byte back.
pub proof fn lemma_u8_round_trip(value: u8, rest: Seq<u8>)
    ensures
        parse_u8(encode_u8(value) + rest) == parsed(value, rest),
{
    assert((encode_u8(value) + rest).skip(1) =~= rest);
}

/// Reading after encoding gives the number back.
pub proof fn lemma_u16_round_trip(value: u16, rest: Seq<u8>)
    ensures
        parse_u16(encode_u16(value) + rest) == parsed(value, rest),
{
    assert((encode_u16(value) + rest).skip(2) =~= rest);
}

/// Reading after encoding gives the number back.
pub proof fn lemma_u32_round_trip(value: u32, rest: Seq<u8>)
    ensures
        parse_u32(encode_u32(value) + rest) == parsed(value, rest),
        parse_usize32(encode_u32(value) + rest) == parsed(value as usize, rest),
{
    assert((encode_u32(value) + rest).skip(4) =~= rest);
}

/// The eight bytes of a number make up the number.
proof fn lemma_u64_bytes(value: u64)
    by (bit_vector)
    ensures
        (value / 0x100_0000_0000_0000) as u8 * 0x100_0000_0000_0000 + (value / 0x1_0000_0000_0000
            % 0x100) as u8 * 0x1_0000_0000_0000 + (value / 0x100_0000_0000 % 0x100) as u8
            * 0x100_0000_0000 + (value / 0x1_0000_0000 % 0x100) as u8 * 0x1_0000_0000 + (value
            / 0x100_0000 % 0x100) as u8 * 0x100_0000 + (value / 0x1_0000 % 0x100) as u8 * 0x1_0000
            + (value / 0x100 % 0x100) as u8 * 0x100 + (value % 0x100) as u8 == value,
{
}

/// Reading after encoding gives the number back.
pub proof fn lemma_u64_round_trip(value: u64, rest: Seq<u8>)
    ensures
        parse_u64(encode_u64(value) + rest) == parsed(value, rest),
{
    lemma_u64_bytes(value);
    assert((encode_u64(value) + rest).skip(8) =~= rest);
}

/// Reading after encoding gives the string back.
pub proof fn lemma_string_round_trip(text: Seq<char>, rest: Seq<u8>)
    requires
        encodable_string(text),
    ensures
        parse_string(encode_string(text) + rest) == parsed(text, rest),
{
    let bytes = encode_utf8(text);
    lemma_u16_round_trip(bytes.len() as u16, bytes + rest);
    assert(encode_string(text) + rest =~= encode_u16(bytes.len() as u16) + (bytes + rest));
    assert((bytes + rest).take(bytes.len() as int) =~= bytes);
    assert((bytes + rest).skip(bytes.len() as int) =~= rest);
    encode_utf8_valid_utf8(text);
    encode_utf8_decode_utf8(text);
}

/// Where reading after encoding gives each of the values back, it gives
/// the list of them back.
pub proof fn lemma_repeated_round_trip<T>(
    parse: spec_fn(Seq<u8>) -> Parsed<T>,
    encode: spec_fn(T) -> Seq<u8>,
    values: Seq<T>,
    rest: Seq<u8>,
)
    requires
        forall|i: int, behind: Seq<u8>|
            0 <= i < values.len() ==> #[trigger] parse(encode(values[i]) + behind) == parsed(
                values[i],
                behind,
            ),
    ensures
        parse_repeated(parse, values.len(), encode_repeated(encode, values) + rest) == parsed(
            values,
            rest,
        ),
    decreases values.len(),
{
    if values.len() == 0 {
        assert(encode_repeated(encode, values) + rest =~= rest);
        assert(values =~= Seq::empty());
    } else {
        let front = values.drop_last();
        let last = values.last();
        let behind = encode(last) + rest;
        assert forall|i: int, behind: Seq<u8>| 0 <= i < front.len() implies #[trigger] parse(
            encode(front[i]) + behind,
        ) == parsed(front[i], behind) by {
            assert(front[i] == values[i]);
        }
        lemma_repeated_round_trip(parse, encode, front, behind);
        assert(encode_repeated(encode, values) + rest =~= encode_repeated(encode, front) + behind);
        assert(parse(encode(values[values.len() - 1]) + rest) == parsed(last, rest));
        assert(front.push(last) =~= values);
    }
}

/// Reading after encoding gives the point back.
pub proof fn lemma_point_round_trip(point: Point, rest: Seq<u8>)
    ensures
        parse_point(encode_point(point) + rest) == parsed(point, rest),
{
    lemma_u16_round_trip(point.x, encode_u16(point.y) + rest);
    lemma_u16_round_trip(point.y, rest);
    assert(encode_point(point) + rest =~= encode_u16(point.x) + (encode_u16(point.y) + rest));
}

/// Reading after encoding gives the ring back.
pub proof fn lemma_ring_round_trip(ring: Seq<Point>, rest: Seq<u8>)
    requires
        encodable_ring(ring),
    ensures
        parse_ring(encode_ring(ring) + rest) == parsed(ring, rest),
{
    let encode = point_encoder();
    let points = encode_repeated(encode, ring);
    lemma_u32_round_trip(ring.len() as u32, points + rest);
    assert(encode_ring(ring) + rest =~= encode_u32(ring.len() as u32) + (points + rest));
    assert forall|i: int, behind: Seq<u8>| 0 <= i < ring.len() implies #[trigger] point_parser()(
        encode(ring[i]) + behind,
    ) == parsed(ring[i], behind) by {
        lemma_point_round_trip(ring[i], behind);
    }
    lemma_repeated_round_trip(point_parser(), encode, ring, rest);
}

/// Reading after encoding gives the list of rings back.
pub proof fn lemma_polygons_round_trip(rings: Seq<Seq<Point>>, rest: Seq<u8>)
    requires
        encodable_polygons(rings),
    ensures
        parse_polygons(encode_polygons(rings) + rest) == parsed(rings, rest),
{
    let encode = ring_encoder();
    let encoded = encode_repeated(encode, rings);
    lemma_u8_round_trip(rings.len() as u8, encoded + rest);
    assert(encode_polygons(rings) + rest =~= encode_u8(rings.len() as u8) + (encoded + rest));
    assert forall|i: int, behind: Seq<u8>| 0 <= i < rings.len() implies #[trigger] ring_parser()(
        encode(rings[i]) + behind,
    ) == parsed(rings[i], behind) by {
        assert(ring_encodable()(rings[i]));
        lemma_ring_round_trip(rings[i], behind);
    }
    lemma_repeated_round_trip(ring_parser(), encode, rings, rest);
}

/// Reading after encoding gives the area back.
pub proof fn lemma_area_round_trip(area: (Seq<char>, MultipolygonView), rest: Seq<u8>)
    requires
        encodable_area(area),
    ensures
        parse_areas(encode_area(area) + rest) == parsed(area, rest),
{
    let inner = encode_polygons(area.1.inner) + rest;
    let outer = encode_polygons(area.1.outer) + inner;
    lemma_string_round_trip(area.0, outer);
    lemma_polygons_round_trip(area.1.outer, inner);
    lemma_polygons_round_trip(area.1.inner, rest);
    assert(encode_area(area) + rest =~= encode_string(area.0) + outer);
}

/// Reading after encoding gives the cell back.
pub proof fn lemma_cell_round_trip(cell: CellView, rest: Seq<u8>)
    requires
        encodable_cell(cell),
    ensures
        parse_cell(encode_cell(cell) + rest) == parsed(cell, rest),
{
    let encode_id = string_encoder();
    let encode_one = area_encoder();
    let ids = cell.containing_ids;
    let areas = cell.intersecting_areas;
    let behind_areas = encode_repeated(encode_one, areas) + rest;
    let behind_ids = encode_u8(areas.len() as u8) + behind_areas;
    let behind_count = encode_repeated(encode_id, ids) + behind_ids;
    assert(encode_cell(cell) + rest == encode_u8(ids.len() as u8) + behind_count) by {
        let id_count = encode_u8(ids.len() as u8);
        let all_ids = encode_repeated(encode_id, ids);
        let area_count = encode_u8(areas.len() as u8);
        let all_areas = encode_repeated(encode_one, areas);
        lemma_concat_assoc(id_count + all_ids + area_count, all_areas, rest);
        lemma_concat_assoc(id_count + all_ids, area_count, behind_areas);
        lemma_concat_assoc(id_count, all_ids, behind_ids);
    }
    lemma_u8_round_trip(ids.len() as u8, behind_count);
    assert forall|i: int, behind: Seq<u8>| 0 <= i < ids.len() implies #[trigger] string_parser()(
        encode_id(ids[i]) + behind,
    ) == parsed(ids[i], behind) by {
        assert(string_encodable()(ids[i]));
        lemma_string_round_trip(ids[i], behind);
    }
    lemma_repeated_round_trip(string_parser(), encode_id, ids, behind_ids);
    lemma_u8_round_trip(areas.len() as u8, behind_areas);
    assert forall|i: int, behind: Seq<u8>| 0 <= i < areas.len() implies #[trigger] areas_parser()(
        encode_one(areas[i]) + behind,
    ) == parsed(areas[i], behind) by {
        assert(area_encodable()(areas[i]));
        lemma_area_round_trip(areas[i], behind);
    }
    lemma_repeated_round_trip(areas_parser(), encode_one, areas, rest);
}

/// Reading after encoding gives the registered size back.
pub proof fn lemma_size_round_trip(entry: (Seq<char>, u64), rest: Seq<u8>)
    requires
        encodable_string(entry.0),
    ensures
        parse_size(encode_size(entry) + rest) == parsed(entry, rest),
{
    lemma_string_round_trip(entry.0, encode_u64(entry.1) + rest);
    lemma_u64_round_trip(entry.1, rest);
    assert(encode_size(entry) + rest =~= encode_string(entry.0) + (encode_u64(entry.1) + rest));
}

/// Reading the encoding of a dataset gives that dataset back, with the
/// same cells and the same registered sizes, and leaves what stood behind
/// the encoding.
pub proof fn lemma_grid_round_trip(grid: GridView, rest: Seq<u8>)
    requires
        encodable_grid(grid),
    ensures
        parse_grid(encode_grid(grid) + rest) == parsed(grid, rest),
{
    let encode_entry = size_encoder();
    let encode_one = cell_encoder();
    let sizes = grid.geometry_sizes;
    let raster = grid.raster;
    let behind_cell_count = encode_repeated(encode_one, raster) + rest;
    let behind_width = encode_u32(raster.len() as u32) + behind_cell_count;
    let behind_sizes = encode_u32(grid.raster_width as u32) + behind_width;
    let behind_size_count = encode_repeated(encode_entry, sizes) + behind_sizes;
    let behind_version = encode_u32(sizes.len() as u32) + behind_size_count;
    assert(encode_grid(grid) + rest == encode_u16(VERSION) + behind_version) by {
        let version = encode_u16(VERSION);
        let size_count = encode_u32(sizes.len() as u32);
        let all_sizes = encode_repeated(encode_entry, sizes);
        let width = encode_u32(grid.raster_width as u32);
        let cell_count = encode_u32(raster.len() as u32);
        let cells = encode_repeated(encode_one, raster);
        lemma_concat_assoc(version + size_count + all_sizes + width + cell_count, cells, rest);
        lemma_concat_assoc(version + size_count + all_sizes + width, cell_count, behind_cell_count);
        lemma_concat_assoc(version + size_count + all_sizes, width, behind_width);
        lemma_concat_assoc(version + size_count, all_sizes, behind_sizes);
        lemma_concat_assoc(version, size_count, behind_size_count);
    }
    lemma_u16_round_trip(VERSION, behind_version);
    lemma_u32_round_trip(sizes.len() as u32, behind_size_count);
    assert forall|i: int, behind: Seq<u8>| 0 <= i < sizes.len() implies #[trigger] size_parser()(
        encode_entry(sizes[i]) + behind,
    ) == parsed(sizes[i], behind) by {
        assert(size_encodable()(sizes[i]));
        lemma_size_round_trip(sizes[i], behind);
    }
    lemma_repeated_round_trip(size_parser(), encode_entry, sizes, behind_sizes);
    lemma_u32_round_trip(grid.raster_width as u32, behind_width);
    lemma_u32_round_trip(raster.len() as u32, behind_cell_count);
    assert forall|i: int, behind: Seq<u8>| 0 <= i < raster.len() implies #[trigger] cell_parser()(
        encode_one(raster[i]) + behind,
    ) == parsed(raster[i], behind) by {
        assert(cell_encodable()(raster[i]));
        lemma_cell_round_trip(raster[i], behind);
    }
    lemma_repeated_round_trip(cell_parser(), encode_one, raster, rest);
}

/// Bytes from which a byte is read begin with that byte.
pub proof fn lemma_parsed_u8(s: Seq<u8>)
    ensures
        parse_u8(s) matches Ok((value, rest)) ==> s == encode_u8(value) + rest,
{
    if let Ok((value, rest)) = parse_u8(s) {
        assert(s =~= encode_u8(value) + rest);
    }
}

/// Bytes from which a number is read begin with the encoding of that number.
pub proof fn lemma_parsed_u16(s: Seq<u8>)
    ensures
        parse_u16(s) matches Ok((value, rest)) ==> s == encode_u16(value) + rest,
{
    if let Ok((value, rest)) = parse_u16(s) {
        assert(s =~= encode_u16(value) + rest);
    }
}

/// The number that four bytes make up has those bytes.
proof fn lemma_bytes_u32(b0: u8, b1: u8, b2: u8, b3: u8)
    by (bit_vector)
    ensures
        ({
            let value = (b0 * 0x100_0000 + b1 * 0x1_0000 + b2 * 0x100 + b3) as u32;
            &&& (value / 0x100_0000) as u8 == b0
            &&& (value / 0x1_0000 % 0x100) as u8 == b1
            &&& (value / 0x100 % 0x100) as u8 == b2
            &&& (value % 0x100) as u8 == b3
        }),
{
}

/// Bytes from which a number is read begin with the encoding of that number.
pub proof fn lemma_parsed_u32(s: Seq<u8>)
    ensures
        parse_u32(s) matches Ok((value, rest)) ==> s == encode_u32(value) + rest,
        parse_usize32(s) matches Ok((value, rest)) ==> value <= 0xffff_ffff && s == encode_u32(
            value as u32,
        ) + rest,
{
    if let Ok((value, rest)) = parse_u32(s) {
        lemma_bytes_u32(s[0], s[1], s[2], s[3]);
        assert(s =~= encode_u32(value) + rest);
    }
}

/// The number that eight bytes make up has those bytes.
proof fn lemma_bytes_u64(b0: u8, b1: u8, b2: u8, b3: u8, b4: u8, b5: u8, b6: u8, b7: u8)
    by (bit_vector)
    ensures
        ({
            let value = (b0 * 0x100_0000_0000_0000 + b1 * 0x1_0000_0000_0000 + b2
                * 0x100_0000_0000 + b3 * 0x1_0000_0000 + b4 * 0x100_0000 + b5 * 0x1_0000 + b6
                * 0x100 + b7) as u64;
            &&& (value / 0x100_0000_0000_0000) as u8 == b0
            &&& (value / 0x1_0000_0000_0000 % 0x100) as u8 == b1
            &&& (value / 0x100_0000_0000 % 0x100) as u8 == b2
            &&& (value / 0x1_0000_0000 % 0x100) as u8 == b3
            &&& (value / 0x100_0000 % 0x100) as u8 == b4
            &&& (value / 0x1_0000 % 0x100) as u8 == b5
            &&& (value / 0x100 % 0x100) as u8 == b6
            &&& (value % 0x100) as u8 == b7
        }),
{
}

/// Bytes from which a number is read begin with the encoding of that number.
pub proof fn lemma_parsed_u64(s: Seq<u8>)
    ensures
        parse_u64(s) matches Ok((value, rest)) ==> s == encode_u64(value) + rest,
{
    if let Ok((value, rest)) = parse_u64(s) {
        lemma_bytes_u64(s[0], s[1], s[2], s[3], s[4], s[5], s[6], s[7]);
        assert(s =~= encode_u64(value) + rest);
    }
}

/// Bytes from which a string is read begin with the encoding of that string.
pub proof fn lemma_parsed_string(s: Seq<u8>)
    ensures
        parse_string(s) matches Ok((text, rest)) ==> encodable_string(text) && s == encode_string(
            text,
        ) + rest,
{
    if let Ok((text, rest)) = parse_string(s) {
        lemma_parsed_u16(s);
        let length = parse_u16(s)->Ok_0.0;
        let behind = parse_u16(s)->Ok_0.1;
        let bytes = behind.take(length as int);
        decode_utf8_encode_utf8(bytes);
        assert(behind =~= bytes + rest);
        lemma_concat_assoc(encode_u16(length), bytes, rest);
    }
}

/// Whether `from`, if `parse` reads a value from it, begins with the
/// encoding of that value.
pub open spec fn reads_encoding<T>(
    parse: spec_fn(Seq<u8>) -> Parsed<T>,
    encode: spec_fn(T) -> Seq<u8>,
    encodable: spec_fn(T) -> bool,
    from: Seq<u8>,
) -> bool {
    parse(from) matches Ok((value, rest)) ==> encodable(value) && from == encode(value) + rest
}

/// Where bytes from which a value is read always begin with the encoding
/// of that value, bytes from which a list of values is read begin with the
/// encodings of those values.
pub proof fn lemma_parsed_repeated<T>(
    parse: spec_fn(Seq<u8>) -> Parsed<T>,
    encode: spec_fn(T) -> Seq<u8>,
    encodable: spec_fn(T) -> bool,
    n: nat,
    s: Seq<u8>,
)
    requires
        forall|from: Seq<u8>| #[trigger] reads_encoding(parse, encode, encodable, from),
    ensures
        parse_repeated(parse, n, s) matches Ok((values, rest)) ==> {
            &&& values.len() == n
            &&& each_encodable(encodable, values)
            &&& s == encode_repeated(encode, values) + rest
        },
    decreases n,
{
    if let Ok((values, rest)) = parse_repeated(parse, n, s) {
        if n == 0 {
            assert(s =~= encode_repeated(encode, values) + rest);
        } else {
            lemma_parsed_repeated(parse, encode, encodable, (n - 1) as nat, s);
            let front = parse_repeated(parse, (n - 1) as nat, s)->Ok_0.0;
            let behind = parse_repeated(parse, (n - 1) as nat, s)->Ok_0.1;
            let last = parse(behind)->Ok_0.0;
            assert(reads_encoding(parse, encode, encodable, behind));
            assert(values == front.push(last));
            assert(values.drop_last() =~= front);
            assert(behind == encode(last) + rest);
            lemma_concat_assoc(encode_repeated(encode, front), encode(last), rest);
            assert forall|i: int| 0 <= i < values.len() implies encodable(#[trigger] values[i]) by {
                if i < front.len() {
                    assert(values[i] == front[i]);
                }
            }
        }
    }
}

/// Any value can be encoded.
pub open spec fn always_encodable<T>() -> spec_fn(T) -> bool {
    |value: T| true
}

/// Bytes from which a point is read begin with the encoding of that point.
pub proof fn lemma_parsed_point(s: Seq<u8>)
    ensures
        parse_point(s) matches Ok((point, rest)) ==> s == encode_point(point) + rest,
{
    if let Ok((point, rest)) = parse_point(s) {
        lemma_parsed_u16(s);
        let behind = parse_u16(s)->Ok_0.1;
        lemma_parsed_u16(behind);
        lemma_concat_assoc(encode_u16(point.x), encode_u16(point.y), rest);
    }
}

/// Bytes from which a ring is read begin with the encoding of that ring.
pub proof fn lemma_parsed_ring(s: Seq<u8>)
    ensures
        parse_ring(s) matches Ok((ring, rest)) ==> encodable_ring(ring) && s == encode_ring(ring)
            + rest,
{
    if let Ok((ring, rest)) = parse_ring(s) {
        lemma_parsed_u32(s);
        let count = parse_usize32(s)->Ok_0.0;
        let behind = parse_usize32(s)->Ok_0.1;
        assert forall|from: Seq<u8>| #[trigger]
            reads_encoding(point_parser(), point_encoder(), always_encodable::<Point>(), from) by {
            lemma_parsed_point(from);
        }
        lemma_parsed_repeated(
            point_parser(),
            point_encoder(),
            always_encodable::<Point>(),
            count as nat,
            behind,
        );
        lemma_concat_assoc(
            encode_u32(count as u32),
            encode_repeated(point_encoder(), ring),
            rest,
        );
    }
}

/// Bytes from which a list of rings is read begin with the encoding of
/// that list.
pub proof fn lemma_parsed_polygons(s: Seq<u8>)
    ensures
        parse_polygons(s) matches Ok((rings, rest)) ==> encodable_polygons(rings) && s
            == encode_polygons(rings) + rest,
{
    if let Ok((rings, rest)) = parse_polygons(s) {
        lemma_parsed_u8(s);
        let count = parse_u8(s)->Ok_0.0;
        let behind = parse_u8(s)->Ok_0.1;
        assert forall|from: Seq<u8>| #[trigger]
            reads_encoding(ring_parser(), ring_encoder(), ring_encodable(), from) by {
            lemma_parsed_ring(from);
        }
        lemma_parsed_repeated(
            ring_parser(),
            ring_encoder(),
            ring_encodable(),
            count as nat,
            behind,
        );
        lemma_concat_assoc(encode_u8(count), encode_repeated(ring_encoder(), rings), rest);
    }
}

/// Bytes from which an area is read begin with the encoding of that area.
pub proof fn lemma_parsed_area(s: Seq<u8>)
    ensures
        parse_areas(s) matches Ok((area, rest)) ==> encodable_area(area) && s == encode_area(area)
            + rest,
{
    if let Ok((area, rest)) = parse_areas(s) {
        lemma_parsed_string(s);
        let behind_id = parse_string(s)->Ok_0.1;
        lemma_parsed_polygons(behind_id);
        let behind_outer = parse_polygons(behind_id)->Ok_0.1;
        lemma_parsed_polygons(behind_outer);
        lemma_concat_assoc(encode_polygons(area.1.outer), encode_polygons(area.1.inner), rest);
        lemma_concat_assoc(
            encode_string(area.0),
            encode_polygons(area.1.outer) + encode_polygons(area.1.inner),
            rest,
        );
        lemma_concat_assoc(
            encode_string(area.0),
            encode_polygons(area.1.outer),
            encode_polygons(area.1.inner),
        );
    }
}

/// Bytes from which a cell is read begin with the encoding of that cell.
pub proof fn lemma_parsed_cell(s: Seq<u8>)
    ensures
        parse_cell(s) matches Ok((cell, rest)) ==> encodable_cell(cell) && s == encode_cell(cell)
            + rest,
{
    if let Ok((cell, rest)) = parse_cell(s) {
        lemma_parsed_u8(s);
        let id_count = parse_u8(s)->Ok_0.0;
        let behind_id_count = parse_u8(s)->Ok_0.1;
        assert forall|from: Seq<u8>| #[trigger]
            reads_encoding(string_parser(), string_encoder(), string_encodable(), from) by {
            lemma_parsed_string(from);
        }
        lemma_parsed_repeated(
            string_parser(),
            string_encoder(),
            string_encodable(),
            id_count as nat,
            behind_id_count,
        );
        let behind_ids = parse_repeated(string_parser(), id_count as nat, behind_id_count)->Ok_0.1;
        lemma_parsed_u8(behind_ids);
        let area_count = parse_u8(behind_ids)->Ok_0.0;
        let behind_area_count = parse_u8(behind_ids)->Ok_0.1;
        assert forall|from: Seq<u8>| #[trigger]
            reads_encoding(areas_parser(), area_encoder(), area_encodable(), from) by {
            lemma_parsed_area(from);
        }
        lemma_parsed_repeated(
            areas_parser(),
            area_encoder(),
            area_encodable(),
            area_count as nat,
            behind_area_count,
        );
        let ids = encode_repeated(string_encoder(), cell.containing_ids);
        let areas = encode_repeated(area_encoder(), cell.intersecting_areas);
        lemma_concat_assoc(encode_u8(area_count), areas, rest);
        lemma_concat_assoc(ids, encode_u8(area_count) + areas, rest);
        lemma_concat_assoc(encode_u8(id_count), ids + (encode_u8(area_count) + areas), rest);
        lemma_concat_assoc(ids, encode_u8(area_count), areas);
        lemma_concat_assoc(encode_u8(id_count), ids, encode_u8(area_count) + areas);
        lemma_concat_assoc(encode_u8(id_count) + ids, encode_u8(area_count), areas);
        lemma_concat_assoc(encode_u8(id_count), ids + encode_u8(area_count) + areas, rest);
        lemma_concat_assoc(encode_u8(id_count) + ids, encode_u8(area_count) + areas, rest);
    }
}

/// Bytes from which a registered size is read begin with the encoding of
/// that size.
pub proof fn lemma_parsed_size(s: Seq<u8>)
    ensures
        parse_size(s) matches Ok((entry, rest)) ==> encodable_string(entry.0) && s == encode_size(
            entry,
        ) + rest,
{
    if let Ok((entry, rest)) = parse_size(s) {
        lemma_parsed_string(s);
        let behind = parse_string(s)->Ok_0.1;
        lemma_parsed_u64(behind);
        lemma_concat_assoc(encode_string(entry.0), encode_u64(entry.1), rest);
    }
}

/// Bytes from which a dataset is read begin with the encoding of that
/// dataset: nothing but an encoding of a dataset reads as that dataset.
pub proof fn lemma_parsed_grid(s: Seq<u8>)
    ensures
        parse_grid(s) matches Ok((grid, rest)) ==> encodable_grid(grid) && s == encode_grid(grid)
            + rest,
{
    if let Ok((grid, rest)) = parse_grid(s) {
        lemma_parsed_u16(s);
        let behind_version = parse_version(s)->Ok_0.1;
        lemma_parsed_u32(behind_version);
        let size_count = parse_usize32(behind_version)->Ok_0.0;
        let behind_size_count = parse_usize32(behind_version)->Ok_0.1;
        assert forall|from: Seq<u8>| #[trigger]
            reads_encoding(size_parser(), size_encoder(), size_encodable(), from) by {
            lemma_parsed_size(from);
        }
        lemma_parsed_repeated(
            size_parser(),
            size_encoder(),
            size_encodable(),
            size_count as nat,
            behind_size_count,
        );
        let behind_sizes = parse_repeated(
            size_parser(),
            size_count as nat,
            behind_size_count,
        )->Ok_0.1;
        lemma_parsed_u32(behind_sizes);
        let behind_width = parse_usize32(behind_sizes)->Ok_0.1;
        lemma_parsed_u32(behind_width);
        let cell_count = parse_usize32(behind_width)->Ok_0.0;
        let behind_cell_count = parse_usize32(behind_width)->Ok_0.1;
        assert forall|from: Seq<u8>| #[trigger]
            reads_encoding(cell_parser(), cell_encoder(), cell_encodable(), from) by {
            lemma_parsed_cell(from);
        }
        lemma_parsed_repeated(
            cell_parser(),
            cell_encoder(),
            cell_encodable(),
            cell_count as nat,
            behind_cell_count,
        );
        let version = encode_u16(VERSION);
        let sizes_length = encode_u32(grid.geometry_sizes.len() as u32);
        let sizes = encode_repeated(size_encoder(), grid.geometry_sizes);
        let width = encode_u32(grid.raster_width as u32);
        let cells_length = encode_u32(grid.raster.len() as u32);
        let cells = encode_repeated(cell_encoder(), grid.raster);
        assert(behind_cell_count == cells + rest);
        assert(behind_width == cells_length + behind_cell_count);
        assert(behind_sizes == width + behind_width);
        assert(behind_size_count == sizes + behind_sizes);
        assert(behind_version == sizes_length + behind_size_count);
        assert(s == version + behind_version);
        lemma_concat_assoc(version + sizes_length + sizes + width + cells_length, cells, rest);
        lemma_concat_assoc(version + sizes_length + sizes + width, cells_length, cells + rest);
        lemma_concat_assoc(version + sizes_length + sizes, width, behind_width);
        lemma_concat_assoc(version + sizes_length, sizes, behind_sizes);
        lemma_concat_assoc(version, sizes_length, behind_size_count);
    }
}

} // verus!
