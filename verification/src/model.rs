//! Courses and the catalog they are flattened from.

use vstd::prelude::*;
use crate::text::{chars_of, contains, contains_seq, same_text};

verus! {

/// How much of the semester a course occupies its slot.
#[derive(Clone, Copy, Debug, PartialEq, Eq, Structural)]
pub enum CourseDuration {
    /// The whole semester.
    Full,
    /// The first half of the semester.
    H1,
    /// The second half of the semester.
    H2,
}

/// One course offering, placed in a day and a slot.
#[derive(Debug)]
pub struct Course {
    pub name: String,
    pub day: String,
    pub slot: String,
    pub duration: CourseDuration,
}

/// The mathematical value of a [`Course`].
pub ghost struct CourseView {
    pub name: Seq<char>,
    pub day: Seq<char>,
    pub slot: Seq<char>,
    pub duration: CourseDuration,
}

impl View for Course {
    type V = CourseView;

    open spec fn view(&self) -> CourseView {
        CourseView { name: self.name@, day: self.day@, slot: self.slot@, duration: self.duration }
    }
}

/// The values of a sequence of courses, in order.
pub open spec fn views(courses: Seq<Course>) -> Seq<CourseView> {
    courses.map_values(|c: Course| c@)
}

/// Whether no two of `courses` have the same name, as holds of the catalog
/// of a dataset version.
pub open spec fn names_distinct(courses: Seq<CourseView>) -> bool {
    forall|i: int, j: int|
        0 <= i < j < courses.len() ==> (#[trigger] courses[i]).name != (#[trigger] courses[j]).name
}

impl Clone for Course {
    fn clone(&self) -> (r: Course)
        ensures
            r@ == self@,
    {
        Course {
            name: self.name.clone(),
            day: self.day.clone(),
            slot: self.slot.clone(),
            duration: self.duration,
        }
    }
}

impl PartialEq for Course {
    fn eq(&self, other: &Course) -> (r: bool) {
        self.name == other.name && self.day == other.day && self.slot == other.slot
            && self.duration == other.duration
    }
}

impl vstd::std_specs::cmp::PartialEqSpecImpl for Course {
    open spec fn obeys_eq_spec() -> bool {
        true
    }

    open spec fn eq_spec(&self, other: &Course) -> bool {
        self@ == other@
    }
}

/// A copy of `courses`.
pub fn copy_courses(courses: &Vec<Course>) -> (r: Vec<Course>)
    ensures
        views(r@) == views(courses@),
{
    let mut copy: Vec<Course> = Vec::new();
    let mut i: usize = 0;
    assert(views(copy@) =~= views(courses@).take(0));
    while i < courses.len()
        invariant
            i <= courses.len(),
            views(copy@) == views(courses@).take(i as int),
        decreases courses.len() - i,
    {
        let c = courses[i].clone();
        assert(views(copy@.push(c)) =~= views(copy@).push(c@));
        assert(views(courses@).take(i + 1) =~= views(courses@).take(i as int).push(
            courses@[i as int]@,
        ));
        copy.push(c);
        i += 1;
    }
    assert(views(courses@).take(courses.len() as int) =~= views(courses@));
    copy
}

/// The marker of a first-half course in its name.
pub open spec fn first_half_marker() -> Seq<char> {
    seq!['(', 'H', '1', ')']
}

/// The marker of a second-half course in its name.
pub open spec fn second_half_marker() -> Seq<char> {
    seq!['(', 'H', '2', ')']
}

/// The marker of a course that is offered in both halves.
pub open spec fn both_halves_marker() -> Seq<char> {
    seq!['(', 'H', '1', '/', 'H', '2', ')']
}

/// The duration that a course name announces: the first half where it
/// holds the first-half marker; the second half where it holds the
/// second-half marker and not the marker of both halves; else the whole
/// semester.
pub open spec fn duration_of(name: Seq<char>) -> CourseDuration {
    if contains_seq(name, first_half_marker()) {
        CourseDuration::H1
    } else if contains_seq(name, second_half_marker()) && !contains_seq(
        name,
        both_halves_marker(),
    ) {
        CourseDuration::H2
    } else {
        CourseDuration::Full
    }
}

/// The duration that the course name `name` announces.
pub fn duration_from_name(name: &str) -> (d: CourseDuration)
    ensures
        d == duration_of(name@),
{
    let text = chars_of(name);
    let first: Vec<char> = vec!['(', 'H', '1', ')'];
    let second: Vec<char> = vec!['(', 'H', '2', ')'];
    let both: Vec<char> = vec!['(', 'H', '1', '/', 'H', '2', ')'];
    assert(first@ =~= first_half_marker());
    assert(second@ =~= second_half_marker());
    assert(both@ =~= both_halves_marker());
    if contains(&text, &first) {
        CourseDuration::H1
    } else if contains(&text, &second) && !contains(&text, &both) {
        CourseDuration::H2
    } else {
        CourseDuration::Full
    }
}

impl CourseDuration {
    /// The badge shown for a half-semester course; none for a full one.
    pub fn badge(&self) -> (r: Option<&'static str>)
        ensures
            *self == CourseDuration::Full ==> r is None,
            *self == CourseDuration::H1 ==> r is Some && r.unwrap()@ == seq!['H', '1'],
            *self == CourseDuration::H2 ==> r is Some && r.unwrap()@ == seq!['H', '2'],
    {
        proof {
            reveal_strlit("H1");
            reveal_strlit("H2");
        }
        match self {
            CourseDuration::Full => None,
            CourseDuration::H1 => {
                assert("H1"@ =~= seq!['H', '1']);
                Some("H1")
            },
            CourseDuration::H2 => {
                assert("H2"@ =~= seq!['H', '2']);
                Some("H2")
            },
        }
    }
}

/// The course names offered in each slot of one day, in catalog order.
pub type DaySchedule = Vec<(String, Vec<String>)>;

/// The raw data of one dataset version: for each day its slots, for each
/// slot its course names. The order of the entries is the order of the
/// catalog. Data is well formed where it holds each day once and, within a
/// day, each slot once, as a map from days to maps from slots would;
/// `new` and `insert` make such data.
#[derive(Debug)]
pub struct TimetableData {
    pub days: Vec<(String, DaySchedule)>,
}

/// The value of the slots of one day: each slot with its names.
pub open spec fn schedule_view(slots: Seq<(String, Vec<String>)>) -> Seq<
    (Seq<char>, Seq<Seq<char>>),
> {
    slots.map_values(|e: (String, Vec<String>)| (e.0@, name_views(e.1@)))
}

/// The value of the days: each day with its slots.
pub open spec fn data_view(days: Seq<(String, DaySchedule)>) -> Seq<
    (Seq<char>, Seq<(Seq<char>, Seq<Seq<char>>)>),
> {
    days.map_values(|d: (String, DaySchedule)| (d.0@, schedule_view(d.1@)))
}

impl View for TimetableData {
    type V = Seq<(Seq<char>, Seq<(Seq<char>, Seq<Seq<char>>)>)>;

    open spec fn view(&self) -> Seq<(Seq<char>, Seq<(Seq<char>, Seq<Seq<char>>)>)> {
        data_view(self.days@)
    }
}

/// Whether no two of `entries` have the same key.
pub open spec fn keys_distinct<V>(entries: Seq<(Seq<char>, V)>) -> bool {
    forall|i: int, j: int|
        0 <= i < j < entries.len() ==> (#[trigger] entries[i]).0 != (#[trigger] entries[j]).0
}

/// The position of the first of `entries` whose key is `key`.
pub open spec fn key_position<V>(entries: Seq<(Seq<char>, V)>, key: Seq<char>) -> Option<int>
    decreases entries.len(),
{
    if entries.len() == 0 {
        None
    } else {
        match key_position(entries.drop_last(), key) {
            Some(i) => Some(i),
            None => if entries.last().0 == key {
                Some(entries.len() - 1)
            } else {
                None
            },
        }
    }
}

/// Whether the data holds each day once and, within a day, each slot
/// once.
pub open spec fn well_formed(data: Seq<(Seq<char>, Seq<(Seq<char>, Seq<Seq<char>>)>)>) -> bool {
    &&& keys_distinct(data)
    &&& forall|d: int| 0 <= d < data.len() ==> keys_distinct((#[trigger] data[d]).1)
}

/// The entries with `value` under `key`: in the place of the entry that had
/// the key, or at the end where none had it.
pub open spec fn with_entry<V>(entries: Seq<(Seq<char>, V)>, key: Seq<char>, value: V) -> Seq<
    (Seq<char>, V),
> {
    match key_position(entries, key) {
        Some(i) => entries.update(i, (key, value)),
        None => entries.push((key, value)),
    }
}

/// The slots that `day` has in the data; none where the data has no such
/// day.
pub open spec fn slots_of(
    data: Seq<(Seq<char>, Seq<(Seq<char>, Seq<Seq<char>>)>)>,
    day: Seq<char>,
) -> Seq<(Seq<char>, Seq<Seq<char>>)> {
    match key_position(data, day) {
        Some(i) => data[i].1,
        None => Seq::empty(),
    }
}

/// The data with `names` as the names of `slot` on `day`: the day and the
/// slot keep their places where the data had them, and come last where it
/// had not.
pub open spec fn with_names(
    data: Seq<(Seq<char>, Seq<(Seq<char>, Seq<Seq<char>>)>)>,
    day: Seq<char>,
    slot: Seq<char>,
    names: Seq<Seq<char>>,
) -> Seq<(Seq<char>, Seq<(Seq<char>, Seq<Seq<char>>)>)> {
    with_entry(data, day, with_entry(slots_of(data, day), slot, names))
}

/// `key_position` finds an entry with the key, and none comes before it; it
/// finds none only where no entry has the key.
pub proof fn lemma_key_position<V>(entries: Seq<(Seq<char>, V)>, key: Seq<char>)
    ensures
        key_position(entries, key) matches Some(i) ==> 0 <= i < entries.len() && entries[i].0
            == key && forall|k: int| 0 <= k < i ==> (#[trigger] entries[k]).0 != key,
        key_position(entries, key) is None ==> forall|k: int|
            0 <= k < entries.len() ==> (#[trigger] entries[k]).0 != key,
    decreases entries.len(),
{
    if entries.len() > 0 {
        let front = entries.drop_last();
        lemma_key_position(front, key);
        match key_position(front, key) {
            Some(i) => {
                assert(front[i] == entries[i]);
                assert forall|k: int| 0 <= k < i implies (#[trigger] entries[k]).0 != key by {
                    assert(front[k] == entries[k]);
                }
            },
            None => {
                assert forall|k: int| 0 <= k < front.len() implies (#[trigger] entries[k]).0
                    != key by {
                    assert(front[k] == entries[k]);
                }
            },
        }
    }
}

/// A position found among the first entries is the position among all.
pub proof fn lemma_key_found<V>(entries: Seq<(Seq<char>, V)>, key: Seq<char>, k: int)
    requires
        0 <= k <= entries.len(),
        key_position(entries.take(k), key) is Some,
    ensures
        key_position(entries, key) == key_position(entries.take(k), key),
    decreases entries.len() - k,
{
    if k < entries.len() {
        assert(entries.take(k + 1).drop_last() =~= entries.take(k));
        lemma_key_found(entries, key, k + 1);
    } else {
        assert(entries.take(k) =~= entries);
    }
}

/// Putting a value under a key leaves no key repeated where none was.
pub proof fn lemma_with_entry_distinct<V>(entries: Seq<(Seq<char>, V)>, key: Seq<char>, value: V)
    requires
        keys_distinct(entries),
    ensures
        keys_distinct(with_entry(entries, key, value)),
{
    lemma_key_position(entries, key);
    let all = with_entry(entries, key, value);
    assert forall|i: int, j: int| 0 <= i < j < all.len() implies (#[trigger] all[i]).0 != (
    #[trigger] all[j]).0 by {
        match key_position(entries, key) {
            Some(p) => {
                assert(entries[i].0 != entries[j].0);
            },
            None => {
                assert(all[i] == entries[i]);
                if j < entries.len() {
                    assert(all[j] == entries[j]);
                }
            },
        }
    }
}

/// Well-formed data stays well formed when the names of a slot are set.
pub proof fn lemma_with_names_well_formed(
    data: Seq<(Seq<char>, Seq<(Seq<char>, Seq<Seq<char>>)>)>,
    day: Seq<char>,
    slot: Seq<char>,
    names: Seq<Seq<char>>,
)
    requires
        well_formed(data),
    ensures
        well_formed(with_names(data, day, slot, names)),
{
    lemma_key_position(data, day);
    let slots = with_entry(slots_of(data, day), slot, names);
    let all = with_names(data, day, slot, names);
    lemma_with_entry_distinct(slots_of(data, day), slot, names);
    lemma_with_entry_distinct(data, day, slots);
    assert forall|d: int| 0 <= d < all.len() implies keys_distinct((#[trigger] all[d]).1) by {
        match key_position(data, day) {
            Some(p) => {
                if d != p {
                    assert(all[d] == data[d]);
                }
            },
            None => {
                if d < data.len() {
                    assert(all[d] == data[d]);
                }
            },
        }
    }
}

/// The values of the names of one slot.
pub open spec fn name_views(names: Seq<String>) -> Seq<Seq<char>> {
    names.map_values(|n: String| n@)
}

/// The courses of one slot, in the order of their names.
pub open spec fn slot_courses(day: Seq<char>, slot: Seq<char>, names: Seq<Seq<char>>) -> Seq<
    CourseView,
> {
    names.map_values(
        |n: Seq<char>| CourseView { name: n, day: day, slot: slot, duration: duration_of(n) },
    )
}

/// The courses of the slots of one day, slot after slot.
pub open spec fn day_courses(day: Seq<char>, slots: Seq<(String, Vec<String>)>) -> Seq<CourseView>
    decreases slots.len(),
{
    if slots.len() == 0 {
        Seq::empty()
    } else {
        day_courses(day, slots.drop_last()) + slot_courses(
            day,
            slots.last().0@,
            name_views(slots.last().1@),
        )
    }
}

/// The courses of all days, day after day.
pub open spec fn all_courses(days: Seq<(String, DaySchedule)>) -> Seq<CourseView>
    decreases days.len(),
{
    if days.len() == 0 {
        Seq::empty()
    } else {
        all_courses(days.drop_last()) + day_courses(days.last().0@, days.last().1@)
    }
}

/// The course that the `n`-th name of the `s`-th slot of a day stands for.
pub open spec fn course_of_slot(
    day: Seq<char>,
    slots: Seq<(String, Vec<String>)>,
    s: int,
    n: int,
) -> CourseView {
    CourseView {
        name: slots[s].1@[n]@,
        day: day,
        slot: slots[s].0@,
        duration: duration_of(slots[s].1@[n]@),
    }
}

/// The course that the `n`-th name of the `s`-th slot of the `d`-th day
/// stands for.
pub open spec fn course_of_day(days: Seq<(String, DaySchedule)>, d: int, s: int, n: int) -> CourseView {
    course_of_slot(days[d].0@, days[d].1@, s, n)
}

/// A sequence put after another holds what either holds.
proof fn lemma_contains_either(x: Seq<CourseView>, y: Seq<CourseView>, c: CourseView)
    ensures
        (x + y).contains(c) <==> x.contains(c) || y.contains(c),
{
    if (x + y).contains(c) {
        let w = choose|w: int| 0 <= w < (x + y).len() && (x + y)[w] == c;
        if w < x.len() {
            assert(x[w] == c);
        } else {
            assert(y[w - x.len()] == c);
        }
    }
    if x.contains(c) {
        let w = choose|w: int| 0 <= w < x.len() && x[w] == c;
        assert((x + y)[w] == c);
    }
    if y.contains(c) {
        let w = choose|w: int| 0 <= w < y.len() && y[w] == c;
        assert((x + y)[x.len() + w] == c);
    }
}

/// The courses of a day are the courses that the names of its slots stand
/// for.
pub proof fn lemma_day_courses(day: Seq<char>, slots: Seq<(String, Vec<String>)>, c: CourseView)
    ensures
        day_courses(day, slots).contains(c) <==> exists|s: int, n: int|
            0 <= s < slots.len() && 0 <= n < slots[s].1@.len() && c == #[trigger] course_of_slot(
                day,
                slots,
                s,
                n,
            ),
    decreases slots.len(),
{
    if slots.len() > 0 {
        let front = slots.drop_last();
        let last = slots.len() - 1;
        let here = slot_courses(day, slots.last().0@, name_views(slots.last().1@));
        lemma_day_courses(day, front, c);
        lemma_contains_either(day_courses(day, front), here, c);
        if day_courses(day, slots).contains(c) {
            if day_courses(day, front).contains(c) {
                let (s, n) = choose|s: int, n: int|
                    0 <= s < front.len() && 0 <= n < front[s].1@.len() && c
                        == #[trigger] course_of_slot(day, front, s, n);
                assert(front[s] == slots[s]);
                assert(c == course_of_slot(day, slots, s, n));
            } else {
                let n = choose|n: int| 0 <= n < here.len() && here[n] == c;
                assert(c == course_of_slot(day, slots, last, n));
            }
        }
        if exists|s: int, n: int|
            0 <= s < slots.len() && 0 <= n < slots[s].1@.len() && c == #[trigger] course_of_slot(
                day,
                slots,
                s,
                n,
            ) {
            let (s, n) = choose|s: int, n: int|
                0 <= s < slots.len() && 0 <= n < slots[s].1@.len() && c
                    == #[trigger] course_of_slot(day, slots, s, n);
            if s < last {
                assert(front[s] == slots[s]);
                assert(c == course_of_slot(day, front, s, n));
            } else {
                assert(here[n] == c);
            }
        }
    }
}

/// The catalog holds exactly the courses that the names of the data stand
/// for: each with the day and the slot of its entry, and with the duration
/// that its name announces.
pub proof fn lemma_all_courses(days: Seq<(String, DaySchedule)>, c: CourseView)
    ensures
        all_courses(days).contains(c) <==> exists|d: int, s: int, n: int|
            0 <= d < days.len() && 0 <= s < days[d].1@.len() && 0 <= n < days[d].1@[s].1@.len()
                && c == #[trigger] course_of_day(days, d, s, n),
    decreases days.len(),
{
    if days.len() > 0 {
        let front = days.drop_last();
        let last = days.len() - 1;
        let here = day_courses(days.last().0@, days.last().1@);
        lemma_all_courses(front, c);
        lemma_day_courses(days.last().0@, days.last().1@, c);
        lemma_contains_either(all_courses(front), here, c);
        if all_courses(days).contains(c) {
            if all_courses(front).contains(c) {
                let (d, s, n) = choose|d: int, s: int, n: int|
                    0 <= d < front.len() && 0 <= s < front[d].1@.len() && 0 <= n
                        < front[d].1@[s].1@.len() && c == #[trigger] course_of_day(
                        front,
                        d,
                        s,
                        n,
                    );
                assert(front[d] == days[d]);
                assert(c == course_of_day(days, d, s, n));
            } else {
                let (s, n) = choose|s: int, n: int|
                    0 <= s < days[last].1@.len() && 0 <= n < days[last].1@[s].1@.len() && c
                        == #[trigger] course_of_slot(days[last].0@, days[last].1@, s, n);
                assert(c == course_of_day(days, last, s, n));
            }
        }
        if exists|d: int, s: int, n: int|
            0 <= d < days.len() && 0 <= s < days[d].1@.len() && 0 <= n < days[d].1@[s].1@.len()
                && c == #[trigger] course_of_day(days, d, s, n) {
            let (d, s, n) = choose|d: int, s: int, n: int|
                0 <= d < days.len() && 0 <= s < days[d].1@.len() && 0 <= n
                    < days[d].1@[s].1@.len() && c == #[trigger] course_of_day(days, d, s, n);
            if d < last {
                assert(front[d] == days[d]);
                assert(c == course_of_day(front, d, s, n));
            } else {
                assert(c == course_of_slot(days[last].0@, days[last].1@, s, n));
            }
        }
    }
}

/// Turning raw data into a catalog.
pub trait TimetableExt {
    /// The catalog that the data describes.
    spec fn catalog(&self) -> Seq<CourseView>;

    /// The catalog as a flat list of courses: the days in their order,
    /// within a day the slots in their order, within a slot the names in
    /// their order. The same data always gives the same list.
    fn flatten_courses(&self) -> (courses: Vec<Course>)
        ensures
            views(courses@) == self.catalog(),
    ;
}

impl TimetableExt for TimetableData {
    open spec fn catalog(&self) -> Seq<CourseView> {
        all_courses(self.days@)
    }

    fn flatten_courses(&self) -> (courses: Vec<Course>) {
        let mut courses: Vec<Course> = Vec::new();
        let mut d: usize = 0;
        assert(self.days@.take(0) =~= Seq::<(String, DaySchedule)>::empty());
        assert(views(courses@) =~= Seq::<CourseView>::empty());
        while d < self.days.len()
            invariant
                d <= self.days.len(),
                views(courses@) == all_courses(self.days@.take(d as int)),
            decreases self.days.len() - d,
        {
            let day = &self.days[d].0;
            let slots = &self.days[d].1;
            let ghost done_days = views(courses@);
            let mut s: usize = 0;
            assert(slots@.take(0) =~= Seq::<(String, Vec<String>)>::empty());
            assert(done_days + day_courses(day@, slots@.take(0)) =~= done_days);
            while s < slots.len()
                invariant
                    s <= slots.len(),
                    views(courses@) == done_days + day_courses(day@, slots@.take(s as int)),
                decreases slots.len() - s,
            {
                let slot = &slots[s].0;
                let names = &slots[s].1;
                let ghost done_slots = views(courses@);
                let ghost here = slot_courses(day@, slot@, name_views(names@));
                let mut n: usize = 0;
                assert(done_slots + here.take(0) =~= done_slots);
                while n < names.len()
                    invariant
                        n <= names.len(),
                        here == slot_courses(day@, slot@, name_views(names@)),
                        views(courses@) == done_slots + here.take(n as int),
                    decreases names.len() - n,
                {
                    let name = &names[n];
                    let course = Course {
                        name: name.clone(),
                        day: day.clone(),
                        slot: slot.clone(),
                        duration: duration_from_name(name.as_str()),
                    };
                    assert(views(courses@.push(course)) =~= views(courses@).push(course@));
                    assert(here.take(n + 1) =~= here.take(n as int).push(course@));
                    assert(done_slots + here.take(n + 1) =~= (done_slots + here.take(
                        n as int,
                    )).push(course@));
                    courses.push(course);
                    n += 1;
                }
                proof {
                    assert(here.take(names.len() as int) =~= here);
                    assert(slots@.take(s + 1).drop_last() =~= slots@.take(s as int));
                    assert(slots@.take(s + 1).last() == slots@[s as int]);
                    assert(done_days + (day_courses(day@, slots@.take(s as int)) + here)
                        =~= done_slots + here);
                }
                s += 1;
            }
            proof {
                assert(slots@.take(slots.len() as int) =~= slots@);
                assert(self.days@.take(d + 1).drop_last() =~= self.days@.take(d as int));
                assert(self.days@.take(d + 1).last() == self.days@[d as int]);
            }
            d += 1;
        }
        assert(self.days@.take(self.days.len() as int) =~= self.days@);
        courses
    }
}

/// The position of the first day of `days` that is called `day`.
fn find_day(days: &Vec<(String, DaySchedule)>, day: &str) -> (r: Option<usize>)
    ensures
        r matches Some(i) ==> key_position(data_view(days@), day@) == Some(i as int),
        r is None ==> key_position(data_view(days@), day@) is None,
{
    let ghost v = data_view(days@);
    let mut i: usize = 0;
    assert(v.take(0) =~= Seq::<(Seq<char>, Seq<(Seq<char>, Seq<Seq<char>>)>)>::empty());
    while i < days.len()
        invariant
            i <= days.len(),
            v == data_view(days@),
            key_position(v.take(i as int), day@) is None,
        decreases days.len() - i,
    {
        assert(v.take(i + 1).drop_last() =~= v.take(i as int));
        if same_text(days[i].0.as_str(), day) {
            proof {
                lemma_key_found(v, day@, i + 1);
            }
            return Some(i);
        }
        i += 1;
    }
    assert(v.take(days.len() as int) =~= v);
    None
}

/// The position of the first slot of `slots` that is called `slot`.
fn find_slot(slots: &DaySchedule, slot: &str) -> (r: Option<usize>)
    ensures
        r matches Some(i) ==> key_position(schedule_view(slots@), slot@) == Some(i as int),
        r is None ==> key_position(schedule_view(slots@), slot@) is None,
{
    let ghost v = schedule_view(slots@);
    let mut i: usize = 0;
    assert(v.take(0) =~= Seq::<(Seq<char>, Seq<Seq<char>>)>::empty());
    while i < slots.len()
        invariant
            i <= slots.len(),
            v == schedule_view(slots@),
            key_position(v.take(i as int), slot@) is None,
        decreases slots.len() - i,
    {
        assert(v.take(i + 1).drop_last() =~= v.take(i as int));
        if same_text(slots[i].0.as_str(), slot) {
            proof {
                lemma_key_found(v, slot@, i + 1);
            }
            return Some(i);
        }
        i += 1;
    }
    assert(v.take(slots.len() as int) =~= v);
    None
}

/// Whether no slot of `slots` after position `at` is called as the slot
/// at `at` is.
fn slot_key_is_new(slots: &DaySchedule, at: usize) -> (r: bool)
    requires
        at < slots.len(),
    ensures
        r == forall|j: int|
            at < j < slots.len() ==> schedule_view(slots@)[at as int].0 != (
            #[trigger] schedule_view(slots@)[j]).0,
{
    let mut j: usize = at + 1;
    while j < slots.len()
        invariant
            at < j <= slots.len(),
            forall|k: int|
                at < k < j ==> schedule_view(slots@)[at as int].0 != (
                #[trigger] schedule_view(slots@)[k]).0,
        decreases slots.len() - j,
    {
        if same_text(slots[at].0.as_str(), slots[j].0.as_str()) {
            assert(schedule_view(slots@)[at as int].0 == schedule_view(slots@)[j as int].0);
            return false;
        }
        j += 1;
    }
    true
}

/// Whether no two slots of `slots` have the same name.
fn slots_are_distinct(slots: &DaySchedule) -> (r: bool)
    ensures
        r == keys_distinct(schedule_view(slots@)),
{
    let ghost v = schedule_view(slots@);
    let mut i: usize = 0;
    while i < slots.len()
        invariant
            i <= slots.len(),
            v == schedule_view(slots@),
            forall|a: int, b: int|
                0 <= a < b < v.len() && a < i ==> (#[trigger] v[a]).0 != (#[trigger] v[b]).0,
        decreases slots.len() - i,
    {
        if !slot_key_is_new(slots, i) {
            return false;
        }
        i += 1;
    }
    true
}

/// Whether no day of `days` after position `at` is called as the day at
/// `at` is.
fn day_key_is_new(days: &Vec<(String, DaySchedule)>, at: usize) -> (r: bool)
    requires
        at < days.len(),
    ensures
        r == forall|j: int|
            at < j < days.len() ==> data_view(days@)[at as int].0 != (
            #[trigger] data_view(days@)[j]).0,
{
    let mut j: usize = at + 1;
    while j < days.len()
        invariant
            at < j <= days.len(),
            forall|k: int|
                at < k < j ==> data_view(days@)[at as int].0 != (
                #[trigger] data_view(days@)[k]).0,
        decreases days.len() - j,
    {
        if same_text(days[at].0.as_str(), days[j].0.as_str()) {
            assert(data_view(days@)[at as int].0 == data_view(days@)[j as int].0);
            return false;
        }
        j += 1;
    }
    true
}

impl TimetableData {
    /// Data without days.
    pub fn new() -> (r: TimetableData)
        ensures
            r@.len() == 0,
            well_formed(r@),
    {
        TimetableData { days: Vec::new() }
    }

    /// Whether the data holds each day once and, within a day, each slot
    /// once.
    pub fn is_well_formed(&self) -> (r: bool)
        ensures
            r == well_formed(self@),
    {
        let ghost v = self@;
        let mut i: usize = 0;
        while i < self.days.len()
            invariant
                i <= self.days.len(),
                v == data_view(self.days@),
                forall|a: int, b: int|
                    0 <= a < b < v.len() && a < i ==> (#[trigger] v[a]).0 != (#[trigger] v[b]).0,
                forall|d: int| 0 <= d < i ==> keys_distinct((#[trigger] v[d]).1),
            decreases self.days.len() - i,
        {
            if !day_key_is_new(&self.days, i) {
                return false;
            }
            if !slots_are_distinct(&self.days[i].1) {
                assert(!keys_distinct(v[i as int].1));
                return false;
            }
            i += 1;
        }
        true
    }

    /// Sets the names of `slot` on `day`. A day or a slot that the data
    /// has keeps its place, a new one comes last; well-formed data stays
    /// well formed.
    pub fn insert(&mut self, day: String, slot: String, names: Vec<String>)
        ensures
            final(self)@ == with_names(old(self)@, day@, slot@, name_views(names@)),
            well_formed(old(self)@) ==> well_formed(final(self)@),
    {
        let ghost before = self@;
        proof {
            lemma_key_position(before, day@);
            if well_formed(before) {
                lemma_with_names_well_formed(before, day@, slot@, name_views(names@));
            }
        }
        match find_day(&self.days, day.as_str()) {
            None => {
                let mut slots: DaySchedule = Vec::new();
                assert(schedule_view(slots@) =~= slots_of(before, day@));
                assert(schedule_view(slots@.push((slot, names))) =~= with_entry(
                    slots_of(before, day@),
                    slot@,
                    name_views(names@),
                ));
                slots.push((slot, names));
                assert(data_view(self.days@.push((day, slots))) =~= before.push(
                    (day@, schedule_view(slots@)),
                ));
                self.days.push((day, slots));
            },
            Some(i) => {
                let ghost old_days = self.days@;
                let (key, mut slots) = self.days.remove(i);
                let ghost old_slots = schedule_view(slots@);
                assert(old_slots == slots_of(before, day@));
                proof {
                    lemma_key_position(old_slots, slot@);
                }
                match find_slot(&slots, slot.as_str()) {
                    Some(j) => {
                        let ghost entries = slots@;
                        let _ = slots.remove(j);
                        slots.insert(j, (slot, names));
                        assert(slots@ =~= entries.update(j as int, (slot, names)));
                        assert(schedule_view(slots@) =~= old_slots.update(
                            j as int,
                            (slot@, name_views(names@)),
                        ));
                    },
                    None => {
                        assert(schedule_view(slots@.push((slot, names))) =~= old_slots.push(
                            (slot@, name_views(names@)),
                        ));
                        slots.push((slot, names));
                    },
                }
                assert(schedule_view(slots@) == with_entry(
                    old_slots,
                    slot@,
                    name_views(names@),
                ));
                let ghost rest = self.days@;
                self.days.insert(i, (key, slots));
                assert(self.days@ =~= old_days.update(i as int, (key, slots)));
                assert(data_view(self.days@) =~= before.update(
                    i as int,
                    (day@, schedule_view(slots@)),
                ));
            },
        }
    }

    /// The names of `slot` on `day`, where the data has them.
    pub fn names_in(&self, day: &str, slot: &str) -> (r: Option<&Vec<String>>)
        ensures
            r matches Some(names) ==> key_position(slots_of(self@, day@), slot@) is Some
                && slots_of(self@, day@)[key_position(slots_of(self@, day@), slot@).unwrap()].1
                == name_views(names@),
            r is None ==> key_position(slots_of(self@, day@), slot@) is None,
    {
        proof {
            lemma_key_position(self@, day@);
        }
        match find_day(&self.days, day) {
            None => {
                assert(slots_of(self@, day@).len() == 0);
                None
            },
            Some(i) => {
                proof {
                    lemma_key_position(schedule_view(self.days@[i as int].1@), slot@);
                }
                match find_slot(&self.days[i].1, slot) {
                    Some(j) => Some(&self.days[i].1[j].1),
                    None => None,
                }
            },
        }
    }
}

/// Which courses of the catalog a listing shows.
#[derive(Debug)]
pub enum FilterMode {
    /// The courses of one day.
    Day(String),
    /// The courses of one slot, on any day.
    Slot(String),
    /// The courses of one day and slot.
    Intersection(String, String),
}

/// The mathematical value of a [`FilterMode`].
pub ghost enum FilterModeView {
    Day(Seq<char>),
    Slot(Seq<char>),
    Intersection(Seq<char>, Seq<char>),
}

impl View for FilterMode {
    type V = FilterModeView;

    open spec fn view(&self) -> FilterModeView {
        match self {
            FilterMode::Day(d) => FilterModeView::Day(d@),
            FilterMode::Slot(s) => FilterModeView::Slot(s@),
            FilterMode::Intersection(d, s) => FilterModeView::Intersection(d@, s@),
        }
    }
}

impl Clone for FilterMode {
    fn clone(&self) -> (r: FilterMode)
        ensures
            r@ == self@,
    {
        match self {
            FilterMode::Day(d) => FilterMode::Day(d.clone()),
            FilterMode::Slot(s) => FilterMode::Slot(s.clone()),
            FilterMode::Intersection(d, s) => FilterMode::Intersection(d.clone(), s.clone()),
        }
    }
}

impl PartialEq for FilterMode {
    fn eq(&self, other: &FilterMode) -> (r: bool) {
        match (self, other) {
            (FilterMode::Day(a), FilterMode::Day(b)) => *a == *b,
            (FilterMode::Slot(a), FilterMode::Slot(b)) => *a == *b,
            (FilterMode::Intersection(a, x), FilterMode::Intersection(b, y)) => *a == *b && *x
                == *y,
            _ => false,
        }
    }
}

impl vstd::std_specs::cmp::PartialEqSpecImpl for FilterMode {
    open spec fn obeys_eq_spec() -> bool {
        true
    }

    open spec fn eq_spec(&self, other: &FilterMode) -> bool {
        self@ == other@
    }
}

/// Whether a listing filtered by `filter` shows `course`.
pub open spec fn filter_admits(filter: FilterModeView, course: CourseView) -> bool {
    match filter {
        FilterModeView::Day(d) => course.day == d,
        FilterModeView::Slot(s) => course.slot == s,
        FilterModeView::Intersection(d, s) => course.day == d && course.slot == s,
    }
}

impl FilterMode {
    /// Whether a listing filtered by `self` shows `course`.
    pub fn admits(&self, course: &Course) -> (r: bool)
        ensures
            r == filter_admits(self@, course@),
    {
        match self {
            FilterMode::Day(d) => course.day == *d,
            FilterMode::Slot(s) => course.slot == *s,
            FilterMode::Intersection(d, s) => course.day == *d && course.slot == *s,
        }
    }
}

} // verus!
