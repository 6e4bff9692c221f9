//! One cell of the raster and the membership queries on it.

use crate::multipolygon::{Multipolygon, MultipolygonView, Point};
use crate::text::{
    contains_str, contains_string, ids_view, lemma_ids_view_push, str_eq, strings_view,
};
use vstd::prelude::*;

verus! {

/// One cell in the country boundaries grid.
#[derive(Debug, Default, Clone, PartialEq, Eq)]
pub struct Cell {
    /// Ids of the regions that completely cover this cell.
    pub containing_ids: Vec<String>,
    /// Id and area of each region that only partly covers this cell.
    pub intersecting_areas: Vec<(String, Multipolygon)>,
}

/// Mathematical model of a [`Cell`].
pub struct CellView {
    pub containing_ids: Seq<Seq<char>>,
    pub intersecting_areas: Seq<(Seq<char>, MultipolygonView)>,
}

/// The model of a list of ids with their areas.
pub open spec fn areas_view(areas: Seq<(String, Multipolygon)>) -> Seq<
    (Seq<char>, MultipolygonView),
> {
    Seq::new(areas.len(), |i: int| (areas[i].0@, areas[i].1@))
}

impl View for Cell {
    type V = CellView;

    open spec fn view(&self) -> CellView {
        CellView {
            containing_ids: strings_view(self.containing_ids@),
            intersecting_areas: areas_view(self.intersecting_areas@),
        }
    }
}

/// The ids of those `areas` that cover `p`, in the order of `areas`.
pub open spec fn covering_area_ids(areas: Seq<(Seq<char>, MultipolygonView)>, p: Point) -> Seq<
    Seq<char>,
>
    decreases areas.len(),
{
    if areas.len() == 0 {
        Seq::empty()
    } else if areas.last().1.covers(p) {
        covering_area_ids(areas.drop_last(), p).push(areas.last().0)
    } else {
        covering_area_ids(areas.drop_last(), p)
    }
}

/// The ids of all `areas`, in the order of `areas`.
pub open spec fn area_ids(areas: Seq<(Seq<char>, MultipolygonView)>) -> Seq<Seq<char>> {
    Seq::new(areas.len(), |i: int| areas[i].0)
}

impl CellView {
    /// A cell keeps each region in at most one place: no id twice among the
    /// containing ids, and no containing id among the intersecting areas.
    pub open spec fn wf(self) -> bool {
        &&& self.containing_ids.no_duplicates()
        &&& forall|i: int|
            0 <= i < self.intersecting_areas.len() ==> !self.containing_ids.contains(
                #[trigger] self.intersecting_areas[i].0,
            )
    }

    /// Whether one of the intersecting areas carries `id` and covers `p`.
    pub open spec fn is_in_area(self, p: Point, id: Seq<char>) -> bool {
        exists|i: int|
            0 <= i < self.intersecting_areas.len() && (#[trigger] self.intersecting_areas[i]).0
                == id && self.intersecting_areas[i].1.covers(p)
    }

    /// `p` is in region `id` when the region covers the whole cell, or
    /// covers part of it and that part covers `p`.
    pub open spec fn is_in(self, p: Point, id: Seq<char>) -> bool {
        self.containing_ids.contains(id) || self.is_in_area(p, id)
    }

    /// Whether `p` is in one of the regions `ids`.
    pub open spec fn is_in_any(self, p: Point, ids: Seq<Seq<char>>) -> bool {
        exists|k: int| 0 <= k < ids.len() && self.is_in(p, #[trigger] ids[k])
    }

    /// The containing ids, then the ids of the intersecting areas that cover `p`.
    pub open spec fn ids(self, p: Point) -> Seq<Seq<char>> {
        self.containing_ids + covering_area_ids(self.intersecting_areas, p)
    }

    /// The containing ids, then the ids of all intersecting areas.
    pub open spec fn all_ids(self) -> Seq<Seq<char>> {
        self.containing_ids + area_ids(self.intersecting_areas)
    }
}

/// An id is among the covering areas' ids exactly when one of the areas
/// carries it and covers the point.
proof fn lemma_covering_area_ids(
    areas: Seq<(Seq<char>, MultipolygonView)>,
    p: Point,
    id: Seq<char>,
)
    ensures
        covering_area_ids(areas, p).contains(id) <==> exists|i: int|
            0 <= i < areas.len() && (#[trigger] areas[i]).0 == id && areas[i].1.covers(p),
    decreases areas.len(),
{
    if areas.len() > 0 {
        let front = areas.drop_last();
        let last = areas.last();
        lemma_covering_area_ids(front, p, id);
        let ids = covering_area_ids(areas, p);
        let front_ids = covering_area_ids(front, p);
        if ids.contains(id) {
            if front_ids.contains(id) {
                let i = choose|i: int|
                    0 <= i < front.len() && (#[trigger] front[i]).0 == id && front[i].1.covers(p);
                assert(areas[i] == front[i]);
            } else {
                assert(last.1.covers(p));
                let k = choose|k: int| 0 <= k < ids.len() && ids[k] == id;
                assert(k == front_ids.len());
                assert(areas[areas.len() - 1] == last);
            }
        }
        if exists|i: int|
            0 <= i < areas.len() && (#[trigger] areas[i]).0 == id && areas[i].1.covers(p) {
            let i = choose|i: int|
                0 <= i < areas.len() && (#[trigger] areas[i]).0 == id && areas[i].1.covers(p);
            if i < front.len() {
                assert(front[i] == areas[i]);
                assert(front_ids.contains(id));
                let k = choose|k: int| 0 <= k < front_ids.len() && front_ids[k] == id;
                assert(ids[k] == id);
            } else {
                assert(ids == front_ids.push(id));
                assert(ids[front_ids.len() as int] == id);
            }
        }
    }
}

/// In a cell that keeps each region in one place, a region that covers the
/// whole cell is not tested against an area as well.
pub proof fn lemma_kinds_exclude_each_other(cell: CellView, p: Point, id: Seq<char>)
    requires
        cell.wf(),
    ensures
        !(cell.containing_ids.contains(id) && cell.is_in_area(p, id)),
{
}

/// The ids that [`Cell::get_ids`] gives for a point are the regions that
/// [`Cell::is_in`] confirms for it.
pub proof fn lemma_ids_are_the_regions_in(cell: CellView, p: Point, id: Seq<char>)
    ensures
        cell.ids(p).contains(id) <==> cell.is_in(p, id),
{
    lemma_covering_area_ids(cell.intersecting_areas, p, id);
    let tail = covering_area_ids(cell.intersecting_areas, p);
    let all = cell.ids(p);
    if all.contains(id) {
        let k = choose|k: int| 0 <= k < all.len() && all[k] == id;
        if k < cell.containing_ids.len() {
            assert(cell.containing_ids[k] == id);
        } else {
            assert(tail[k - cell.containing_ids.len()] == id);
        }
    }
    if cell.containing_ids.contains(id) {
        let k = choose|k: int| 0 <= k < cell.containing_ids.len() && cell.containing_ids[k] == id;
        assert(all[k] == id);
    }
    if tail.contains(id) {
        let k = choose|k: int| 0 <= k < tail.len() && tail[k] == id;
        assert(all[cell.containing_ids.len() + k] == id);
    }
}

/// Every region a point is in is one of the cell's regions.
pub proof fn lemma_ids_within_all_ids(cell: CellView, p: Point, id: Seq<char>)
    requires
        cell.ids(p).contains(id),
    ensures
        cell.all_ids().contains(id),
{
    lemma_ids_are_the_regions_in(cell, p, id);
    let all = cell.all_ids();
    if cell.containing_ids.contains(id) {
        let k = choose|k: int| 0 <= k < cell.containing_ids.len() && cell.containing_ids[k] == id;
        assert(all[k] == id);
    } else {
        let i = choose|i: int|
            0 <= i < cell.intersecting_areas.len() && (#[trigger] cell.intersecting_areas[i]).0
                == id && cell.intersecting_areas[i].1.covers(p);
        assert(all[cell.containing_ids.len() + i] == id);
    }
}

impl Cell {
    pub fn new(containing_ids: Vec<String>, intersecting_areas: Vec<(String, Multipolygon)>) -> (r:
        Self)
        ensures
            r.containing_ids == containing_ids,
            r.intersecting_areas == intersecting_areas,
    {
        Self { containing_ids, intersecting_areas }
    }

    /// Returns whether the position `point` of this cell is in the region `id`.
    pub fn is_in(&self, point: Point, id: &str) -> (r: bool)
        ensures
            r == self@.is_in(point, id@),
    {
        if contains_string(self.containing_ids.as_slice(), id) {
            return true;
        }
        let mut i: usize = 0;
        while i < self.intersecting_areas.len()
            invariant
                i <= self.intersecting_areas@.len(),
                forall|k: int|
                    0 <= k < i ==> !((#[trigger] self@.intersecting_areas[k]).0 == id@
                        && self@.intersecting_areas[k].1.covers(point)),
            decreases self.intersecting_areas@.len() - i,
        {
            let area = &self.intersecting_areas[i];
            if str_eq(area.0.as_str(), id) && area.1.covers(point) {
                assert(self@.intersecting_areas[i as int] == (area.0@, area.1@));
                return true;
            }
            assert(self@.intersecting_areas[i as int] == (area.0@, area.1@));
            i += 1;
        }
        false
    }

    /// Returns whether the position `point` of this cell is in any of the regions `ids`.
    pub fn is_in_any(&self, point: Point, ids: &[&str]) -> (r: bool)
        ensures
            r == self@.is_in_any(point, ids_view(ids@)),
    {
        let mut i: usize = 0;
        while i < self.containing_ids.len()
            invariant
                i <= self.containing_ids@.len(),
                forall|k: int|
                    0 <= k < i ==> !ids_view(ids@).contains(#[trigger] self@.containing_ids[k]),
            decreases self.containing_ids@.len() - i,
        {
            if contains_str(ids, self.containing_ids[i].as_str()) {
                proof {
                    let id = self@.containing_ids[i as int];
                    let k = choose|k: int| 0 <= k < ids@.len() && ids_view(ids@)[k] == id;
                    assert(self@.is_in(point, ids_view(ids@)[k]));
                }
                return true;
            }
            i += 1;
        }
        let mut j: usize = 0;
        while j < self.intersecting_areas.len()
            invariant
                j <= self.intersecting_areas@.len(),
                forall|k: int|
                    0 <= k < self.containing_ids@.len() ==> !ids_view(ids@).contains(
                        #[trigger] self@.containing_ids[k],
                    ),
                forall|k: int|
                    0 <= k < j ==> !(ids_view(ids@).contains(
                        (#[trigger] self@.intersecting_areas[k]).0,
                    ) && self@.intersecting_areas[k].1.covers(point)),
            decreases self.intersecting_areas@.len() - j,
        {
            let area = &self.intersecting_areas[j];
            assert(self@.intersecting_areas[j as int] == (area.0@, area.1@));
            if contains_str(ids, area.0.as_str()) && area.1.covers(point) {
                proof {
                    let k = choose|k: int| 0 <= k < ids@.len() && ids_view(ids@)[k] == area.0@;
                    assert(self@.is_in_area(point, ids_view(ids@)[k]));
                    assert(self@.is_in(point, ids_view(ids@)[k]));
                }
                return true;
            }
            j += 1;
        }
        proof {
            assert forall|k: int| 0 <= k < ids@.len() implies !self@.is_in(
                point,
                #[trigger] ids_view(ids@)[k],
            ) by {
                let id = ids_view(ids@)[k];
                if self@.containing_ids.contains(id) {
                    let c = choose|c: int|
                        0 <= c < self@.containing_ids.len() && self@.containing_ids[c] == id;
                    assert(ids_view(ids@).contains(self@.containing_ids[c]));
                }
                if self@.is_in_area(point, id) {
                    let a = choose|a: int|
                        0 <= a < self@.intersecting_areas.len() && (
                        #[trigger] self@.intersecting_areas[a]).0 == id
                            && self@.intersecting_areas[a].1.covers(point);
                    assert(ids_view(ids@).contains(self@.intersecting_areas[a].0));
                }
            }
        }
        false
    }

    /// Returns the ids of all regions that cover the position `point` of this cell.
    pub fn get_ids(&self, point: Point) -> (r: Vec<&str>)
        ensures
            ids_view(r@) == self@.ids(point),
    {
        let mut result: Vec<&str> = Vec::new();
        let mut i: usize = 0;
        while i < self.containing_ids.len()
            invariant
                i <= self.containing_ids@.len(),
                ids_view(result@) == self@.containing_ids.take(i as int),
            decreases self.containing_ids@.len() - i,
        {
            let id = self.containing_ids[i].as_str();
            proof {
                lemma_ids_view_push(result@, id);
            }
            result.push(id);
            assert(ids_view(result@) =~= self@.containing_ids.take(i + 1));
            i += 1;
        }
        assert(self@.containing_ids.take(i as int) == self@.containing_ids);
        let mut j: usize = 0;
        while j < self.intersecting_areas.len()
            invariant
                j <= self.intersecting_areas@.len(),
                ids_view(result@) == self@.containing_ids + covering_area_ids(
                    self@.intersecting_areas.take(j as int),
                    point,
                ),
            decreases self.intersecting_areas@.len() - j,
        {
            let area = &self.intersecting_areas[j];
            proof {
                let next = self@.intersecting_areas.take(j + 1);
                assert(next.drop_last() == self@.intersecting_areas.take(j as int));
                assert(next.last() == (area.0@, area.1@));
            }
            if area.1.covers(point) {
                let id = area.0.as_str();
                proof {
                    lemma_ids_view_push(result@, id);
                }
                result.push(id);
                assert(ids_view(result@) =~= self@.containing_ids + covering_area_ids(
                    self@.intersecting_areas.take(j + 1),
                    point,
                ));
            }
            j += 1;
        }
        assert(self@.intersecting_areas.take(j as int) == self@.intersecting_areas);
        result
    }

    /// Returns the ids of all regions that completely or partly cover this cell.
    pub fn get_all_ids(&self) -> (r: Vec<&str>)
        ensures
            ids_view(r@) == self@.all_ids(),
    {
        let mut result: Vec<&str> = Vec::new();
        let mut i: usize = 0;
        while i < self.containing_ids.len()
            invariant
                i <= self.containing_ids@.len(),
                ids_view(result@) == self@.containing_ids.take(i as int),
            decreases self.containing_ids@.len() - i,
        {
            let id = self.containing_ids[i].as_str();
            proof {
                lemma_ids_view_push(result@, id);
            }
            result.push(id);
            assert(ids_view(result@) =~= self@.containing_ids.take(i + 1));
            i += 1;
        }
        assert(self@.containing_ids.take(i as int) == self@.containing_ids);
        let mut j: usize = 0;
        while j < self.intersecting_areas.len()
            invariant
                j <= self.intersecting_areas@.len(),
                ids_view(result@) == self@.containing_ids + area_ids(self@.intersecting_areas).take(
                    j as int,
                ),
            decreases self.intersecting_areas@.len() - j,
        {
            let id = self.intersecting_areas[j].0.as_str();
            proof {
                lemma_ids_view_push(result@, id);
            }
            result.push(id);
            assert(ids_view(result@) =~= self@.containing_ids + area_ids(
                self@.intersecting_areas,
            ).take(j + 1));
            j += 1;
        }
        assert(area_ids(self@.intersecting_areas).take(j as int) == area_ids(
            self@.intersecting_areas,
        ));
        result
    }
}

} // verus!
