//! A selection as positions in the catalog of a dataset version, and back.
//!
//! A reference holds positions, not names: it resolves to the same courses
//! only as long as the catalog of its dataset version lists its courses in
//! the same order every time it is loaded.

use vstd::prelude::*;
use crate::config::DEFAULT_SEMESTER;
use crate::model::{copy_courses, names_distinct, views, Course, CourseView};
use crate::selection::{
    has_name, holds_name, lemma_first_of_each_name_same, lemma_push_keeps_distinct, Selection,
};
use crate::text::same_text;

verus! {

/// A selection in shareable form: the dataset version and, for each
/// selected course, its position in that version's catalog.
#[derive(Debug)]
pub struct ShareReference {
    pub dataset_version: String,
    pub indices: Vec<usize>,
}

/// The mathematical value of a [`ShareReference`].
pub ghost struct ShareReferenceView {
    pub dataset_version: Seq<char>,
    pub indices: Seq<nat>,
}

/// The positions as numbers without a machine bound.
pub open spec fn as_positions(indices: Seq<usize>) -> Seq<nat> {
    indices.map_values(|i: usize| i as nat)
}

impl View for ShareReference {
    type V = ShareReferenceView;

    open spec fn view(&self) -> ShareReferenceView {
        ShareReferenceView {
            dataset_version: self.dataset_version@,
            indices: as_positions(self.indices@),
        }
    }
}

impl Clone for ShareReference {
    fn clone(&self) -> (r: ShareReference)
        ensures
            r@ == self@,
    {
        let r = ShareReference {
            dataset_version: self.dataset_version.clone(),
            indices: self.indices.clone(),
        };
        assert(r.indices@ =~= self.indices@);
        r
    }
}

/// The catalog of one dataset version.
#[derive(Debug)]
pub struct Dataset {
    pub version: String,
    pub courses: Vec<Course>,
}

/// The mathematical value of a [`Dataset`].
pub ghost struct DatasetView {
    pub version: Seq<char>,
    pub courses: Seq<CourseView>,
}

impl View for Dataset {
    type V = DatasetView;

    open spec fn view(&self) -> DatasetView {
        DatasetView { version: self.version@, courses: views(self.courses@) }
    }
}

/// The catalogs that are on offer, one for each dataset version.
#[derive(Debug)]
pub struct CatalogProvider {
    pub datasets: Vec<Dataset>,
}

impl View for CatalogProvider {
    type V = Seq<DatasetView>;

    open spec fn view(&self) -> Seq<DatasetView> {
        self.datasets@.map_values(|d: Dataset| d@)
    }
}

/// The catalog of the first dataset whose version is `version`.
pub open spec fn catalog_of(datasets: Seq<DatasetView>, version: Seq<char>) -> Option<
    Seq<CourseView>,
>
    decreases datasets.len(),
{
    if datasets.len() == 0 {
        None
    } else {
        match catalog_of(datasets.drop_last(), version) {
            Some(c) => Some(c),
            None => if datasets.last().version == version {
                Some(datasets.last().courses)
            } else {
                None
            },
        }
    }
}

/// The catalog to show for `version`: its own, or the catalog of the
/// default version where none is on offer for it, or nothing where that is
/// missing too.
pub open spec fn catalog_shown(datasets: Seq<DatasetView>, version: Seq<char>) -> Seq<CourseView> {
    match catalog_of(datasets, version) {
        Some(c) => c,
        None => match catalog_of(datasets, DEFAULT_SEMESTER@) {
            Some(c) => c,
            None => Seq::empty(),
        },
    }
}

/// The position of the first course of `catalog` that is called `name`.
pub open spec fn position_of(catalog: Seq<CourseView>, name: Seq<char>) -> Option<int>
    decreases catalog.len(),
{
    if catalog.len() == 0 {
        None
    } else {
        match position_of(catalog.drop_last(), name) {
            Some(i) => Some(i),
            None => if catalog.last().name == name {
                Some(catalog.len() - 1)
            } else {
                None
            },
        }
    }
}

/// The positions in `catalog` of the courses of `selection`, by name and in
/// order; a course that the catalog does not name is left out.
pub open spec fn encoded_indices(selection: Seq<CourseView>, catalog: Seq<CourseView>) -> Seq<nat>
    decreases selection.len(),
{
    if selection.len() == 0 {
        Seq::empty()
    } else {
        let front = encoded_indices(selection.drop_last(), catalog);
        match position_of(catalog, selection.last().name) {
            Some(i) => front.push(i as nat),
            None => front,
        }
    }
}

/// The reference for `selection` in the catalog of `version`.
pub open spec fn encoded(
    selection: Seq<CourseView>,
    catalog: Seq<CourseView>,
    version: Seq<char>,
) -> ShareReferenceView {
    ShareReferenceView {
        dataset_version: version,
        indices: encoded_indices(selection, catalog),
    }
}

/// The courses of `catalog` at `indices`, in order. A position outside the
/// catalog is left out, and so is a position whose course has the name of
/// a course that an earlier position gave: a selection holds a name once.
pub open spec fn decoded_courses(indices: Seq<nat>, catalog: Seq<CourseView>) -> Seq<CourseView>
    decreases indices.len(),
{
    if indices.len() == 0 {
        Seq::empty()
    } else {
        let front = decoded_courses(indices.drop_last(), catalog);
        if indices.last() < catalog.len() && !has_name(
            front,
            catalog[indices.last() as int].name,
        ) {
            front.push(catalog[indices.last() as int])
        } else {
            front
        }
    }
}

/// The selection that `reference` stands for: empty where no catalog is on
/// offer for its dataset version.
pub open spec fn decoded(reference: ShareReferenceView, datasets: Seq<DatasetView>) -> Seq<
    CourseView,
> {
    match catalog_of(datasets, reference.dataset_version) {
        Some(catalog) => decoded_courses(reference.indices, catalog),
        None => Seq::empty(),
    }
}

/// `position_of` finds a course of that name, and none comes before it; it
/// finds none only where the catalog has no course of that name.
pub proof fn lemma_position_of(catalog: Seq<CourseView>, name: Seq<char>)
    ensures
        position_of(catalog, name) matches Some(i) ==> 0 <= i < catalog.len() && catalog[i].name
            == name && forall|k: int| 0 <= k < i ==> (#[trigger] catalog[k]).name != name,
        position_of(catalog, name) is None ==> forall|k: int|
            0 <= k < catalog.len() ==> (#[trigger] catalog[k]).name != name,
    decreases catalog.len(),
{
    if catalog.len() > 0 {
        let front = catalog.drop_last();
        lemma_position_of(front, name);
        match position_of(front, name) {
            Some(i) => {
                assert(front[i] == catalog[i]);
                assert forall|k: int| 0 <= k < i implies (#[trigger] catalog[k]).name != name by {
                    assert(front[k] == catalog[k]);
                }
            },
            None => {
                assert forall|k: int| 0 <= k < front.len() implies (#[trigger] catalog[k]).name
                    != name by {
                    assert(front[k] == catalog[k]);
                }
            },
        }
    }
}

/// What is decoded holds no name twice, and only courses of the catalog.
pub proof fn lemma_decoded_courses(indices: Seq<nat>, catalog: Seq<CourseView>)
    ensures
        names_distinct(decoded_courses(indices, catalog)),
        forall|k: int|
            0 <= k < decoded_courses(indices, catalog).len() ==> catalog.contains(
                #[trigger] decoded_courses(indices, catalog)[k],
            ),
    decreases indices.len(),
{
    if indices.len() > 0 {
        let front = decoded_courses(indices.drop_last(), catalog);
        lemma_decoded_courses(indices.drop_last(), catalog);
        if indices.last() < catalog.len() && !has_name(
            front,
            catalog[indices.last() as int].name,
        ) {
            let course = catalog[indices.last() as int];
            let all = front.push(course);
            lemma_push_keeps_distinct(front, course);
            assert forall|k: int| 0 <= k < all.len() implies catalog.contains(
                #[trigger] all[k],
            ) by {
                if k < front.len() {
                    assert(all[k] == front[k]);
                }
            }
        }
    }
}

/// Decoding what was encoded gives the selection back, where neither the
/// catalog nor the selection names a course twice, every selected course
/// is a course of the catalog, and the provider resolves the version to
/// that catalog.
pub proof fn lemma_round_trip(
    selection: Seq<CourseView>,
    catalog: Seq<CourseView>,
    version: Seq<char>,
    datasets: Seq<DatasetView>,
)
    requires
        names_distinct(catalog),
        names_distinct(selection),
        forall|i: int| 0 <= i < selection.len() ==> catalog.contains(#[trigger] selection[i]),
        catalog_of(datasets, version) == Some(catalog),
    ensures
        decoded(encoded(selection, catalog, version), datasets) == selection,
{
    lemma_courses_round_trip(selection, catalog);
}

/// The same, for the positions alone.
pub proof fn lemma_courses_round_trip(selection: Seq<CourseView>, catalog: Seq<CourseView>)
    requires
        names_distinct(catalog),
        names_distinct(selection),
        forall|i: int| 0 <= i < selection.len() ==> catalog.contains(#[trigger] selection[i]),
    ensures
        decoded_courses(encoded_indices(selection, catalog), catalog) == selection,
    decreases selection.len(),
{
    if selection.len() == 0 {
        assert(decoded_courses(encoded_indices(selection, catalog), catalog) =~= selection);
    } else {
        let front = selection.drop_last();
        let last = selection.last();
        assert forall|i: int| 0 <= i < front.len() implies catalog.contains(
            #[trigger] front[i],
        ) by {
            assert(front[i] == selection[i]);
        }
        assert forall|i: int, j: int| 0 <= i < j < front.len() implies (#[trigger] front[i]).name
            != (#[trigger] front[j]).name by {
            assert(front[i] == selection[i] && front[j] == selection[j]);
        }
        lemma_courses_round_trip(front, catalog);
        lemma_position_of(catalog, last.name);
        assert(catalog.contains(selection[selection.len() - 1]));
        let at = choose|at: int| 0 <= at < catalog.len() && catalog[at] == last;
        let found = position_of(catalog, last.name).unwrap();
        assert(found == at);
        assert(!has_name(front, last.name)) by {
            if has_name(front, last.name) {
                let w = choose|w: int| 0 <= w < front.len() && (#[trigger] front[w]).name == last.name;
                assert(front[w] == selection[w]);
                assert(selection[selection.len() - 1] == last);
            }
        }
        let indices = encoded_indices(front, catalog).push(found as nat);
        assert(indices.drop_last() =~= encoded_indices(front, catalog));
        assert(decoded_courses(indices, catalog) =~= front.push(last));
        assert(front.push(last) =~= selection);
    }
}

impl CatalogProvider {
    /// The catalog of the dataset version `version`, if one is on offer.
    pub fn by_version(&self, version: &str) -> (r: Option<&Vec<Course>>)
        ensures
            r matches Some(c) ==> catalog_of(self@, version@) == Some(views(c@)),
            r is None ==> catalog_of(self@, version@) is None,
    {
        let mut i: usize = 0;
        assert(self@.take(0) =~= Seq::<DatasetView>::empty());
        while i < self.datasets.len()
            invariant
                i <= self.datasets.len(),
                catalog_of(self@.take(i as int), version@) is None,
            decreases self.datasets.len() - i,
        {
            assert(self@.take(i + 1).drop_last() =~= self@.take(i as int));
            if same_text(self.datasets[i].version.as_str(), version) {
                proof {
                    lemma_catalog_found(self@, version@, i + 1);
                }
                return Some(&self.datasets[i].courses);
            }
            i += 1;
        }
        assert(self@.take(self.datasets.len() as int) =~= self@);
        None
    }

    /// The catalog to show while the dataset version `version` is on
    /// display.
    pub fn shown_catalog(&self, version: &str) -> (r: Vec<Course>)
        ensures
            views(r@) == catalog_shown(self@, version@),
    {
        let found = match self.by_version(version) {
            Some(c) => Some(c),
            None => self.by_version(DEFAULT_SEMESTER),
        };
        match found {
            Some(c) => copy_courses(c),
            None => {
                let none: Vec<Course> = Vec::new();
                assert(views(none@) =~= Seq::<CourseView>::empty());
                none
            },
        }
    }
}

/// A catalog found among the first datasets is the catalog found among all.
pub proof fn lemma_catalog_found(datasets: Seq<DatasetView>, version: Seq<char>, k: int)
    requires
        0 <= k <= datasets.len(),
        catalog_of(datasets.take(k), version) is Some,
    ensures
        catalog_of(datasets, version) == catalog_of(datasets.take(k), version),
    decreases datasets.len() - k,
{
    if k < datasets.len() {
        assert(datasets.take(k + 1).drop_last() =~= datasets.take(k));
        lemma_catalog_found(datasets, version, k + 1);
    } else {
        assert(datasets.take(k) =~= datasets);
    }
}

/// A position found in a prefix of the catalog is the position in the whole.
pub proof fn lemma_position_found(catalog: Seq<CourseView>, name: Seq<char>, k: int)
    requires
        0 <= k <= catalog.len(),
        position_of(catalog.take(k), name) is Some,
    ensures
        position_of(catalog, name) == position_of(catalog.take(k), name),
    decreases catalog.len() - k,
{
    if k < catalog.len() {
        assert(catalog.take(k + 1).drop_last() =~= catalog.take(k));
        lemma_position_found(catalog, name, k + 1);
    } else {
        assert(catalog.take(k) =~= catalog);
    }
}

/// The position of the first course of `catalog` that is called `name`.
pub fn find_by_name(catalog: &Vec<Course>, name: &str) -> (r: Option<usize>)
    ensures
        r matches Some(i) ==> position_of(views(catalog@), name@) == Some(i as int),
        r is None ==> position_of(views(catalog@), name@) is None,
{
    let ghost s = views(catalog@);
    let mut i: usize = 0;
    assert(s.take(0) =~= Seq::<CourseView>::empty());
    while i < catalog.len()
        invariant
            i <= catalog.len(),
            s == views(catalog@),
            position_of(s.take(i as int), name@) is None,
        decreases catalog.len() - i,
    {
        assert(s.take(i + 1).drop_last() =~= s.take(i as int));
        if same_text(catalog[i].name.as_str(), name) {
            proof {
                lemma_position_found(s, name@, i + 1);
            }
            return Some(i);
        }
        i += 1;
    }
    assert(s.take(catalog.len() as int) =~= s);
    None
}

/// Encodes `selection` as positions in `catalog`, the catalog of `version`.
pub fn encode(selection: &Selection, catalog: &Vec<Course>, version: &str) -> (r: ShareReference)
    ensures
        r@ == encoded(selection@, views(catalog@), version@),
{
    let members = selection.courses();
    let ghost s = views(members@);
    let ghost c = views(catalog@);
    let mut indices: Vec<usize> = Vec::new();
    let mut k: usize = 0;
    assert(s.take(0) =~= Seq::<CourseView>::empty());
    assert(as_positions(indices@) =~= Seq::<nat>::empty());
    while k < members.len()
        invariant
            k <= members.len(),
            s == views(members@),
            c == views(catalog@),
            as_positions(indices@) == encoded_indices(s.take(k as int), c),
        decreases members.len() - k,
    {
        assert(s.take(k + 1).drop_last() =~= s.take(k as int));
        match find_by_name(catalog, members[k].name.as_str()) {
            Some(i) => {
                assert(as_positions(indices@.push(i)) =~= as_positions(indices@).push(i as nat));
                indices.push(i);
            },
            None => {},
        }
        k += 1;
    }
    assert(s.take(members.len() as int) =~= s);
    ShareReference { dataset_version: version.to_owned(), indices }
}

/// The courses of `catalog` at `indices`, without the positions that the
/// catalog does not have and without a course whose name an earlier
/// position gave.
pub fn decode_courses(indices: &Vec<usize>, catalog: &Vec<Course>) -> (r: Vec<Course>)
    ensures
        views(r@) == decoded_courses(as_positions(indices@), views(catalog@)),
        names_distinct(views(r@)),
{
    let ghost idx = as_positions(indices@);
    let ghost c = views(catalog@);
    let mut out: Vec<Course> = Vec::new();
    let mut k: usize = 0;
    assert(idx.take(0) =~= Seq::<nat>::empty());
    assert(views(out@) =~= Seq::<CourseView>::empty());
    while k < indices.len()
        invariant
            k <= indices.len(),
            idx == as_positions(indices@),
            c == views(catalog@),
            views(out@) == decoded_courses(idx.take(k as int), c),
        decreases indices.len() - k,
    {
        assert(idx.take(k + 1).drop_last() =~= idx.take(k as int));
        assert(idx.take(k + 1).last() == indices@[k as int] as nat);
        if indices[k] < catalog.len() {
            let found = &catalog[indices[k]];
            assert(found@ == c[indices@[k as int] as int]);
            if !holds_name(&out, found.name.as_str()) {
                let course = found.clone();
                assert(views(out@.push(course)) =~= views(out@).push(course@));
                out.push(course);
            }
        }
        k += 1;
    }
    proof {
        assert(idx.take(indices.len() as int) =~= idx);
        lemma_decoded_courses(idx, c);
    }
    out
}

/// Restores the selection that `reference` stands for. A position that the
/// catalog does not have is skipped, and so is one that repeats a name;
/// without a catalog for the dataset version the selection is empty.
pub fn decode(reference: &ShareReference, provider: &CatalogProvider) -> (r: Selection)
    ensures
        r@ == decoded(reference@, provider@),
        names_distinct(r@),
{
    match provider.by_version(reference.dataset_version.as_str()) {
        Some(catalog) => {
            let courses = decode_courses(&reference.indices, catalog);
            proof {
                lemma_first_of_each_name_same(views(courses@));
            }
            Selection::from_courses(&courses)
        },
        None => Selection::new(),
    }
}

} // verus!
