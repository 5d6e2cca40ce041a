//! One user's session: the dataset version on display, the selection made
//! in it, and the course whose removal awaits confirmation.

use vstd::prelude::*;
use crate::codec::{
    decode, decoded, encode, encoded, CatalogProvider, DatasetView, ShareReferenceView,
};
use crate::link::{
    format_reference, parse_reference, parsed_reference, reference_from_fields, reference_of,
    reference_text, share_url, shared_address, text_view,
};
use crate::model::{names_distinct, views, Course, CourseView};
use crate::selection::{after_add, after_remove, Selection};
use crate::text::same_text;

verus! {

/// The state of a session.
#[derive(Debug)]
pub struct Session {
    semester: String,
    selection: Selection,
    pending_deletion: Option<String>,
}

/// The mathematical value of a [`Session`].
pub ghost struct SessionView {
    pub semester: Seq<char>,
    pub selection: Seq<CourseView>,
    pub pending_deletion: Option<Seq<char>>,
}

/// The value of a name that may be absent.
pub open spec fn name_view(name: Option<String>) -> Option<Seq<char>> {
    match name {
        Some(n) => Some(n@),
        None => None,
    }
}

impl View for Session {
    type V = SessionView;

    closed spec fn view(&self) -> SessionView {
        SessionView {
            semester: self.semester@,
            selection: self.selection@,
            pending_deletion: name_view(self.pending_deletion),
        }
    }
}

impl Clone for Session {
    fn clone(&self) -> (r: Session)
        ensures
            r@ == self@,
    {
        Session {
            semester: self.semester.clone(),
            selection: self.selection.clone(),
            pending_deletion: match &self.pending_deletion {
                Some(name) => Some(name.clone()),
                None => None,
            },
        }
    }
}

/// The session that a reference opens: on the dataset version that it
/// names, with the selection that it stands for.
pub open spec fn opened_with(reference: ShareReferenceView, datasets: Seq<DatasetView>) -> SessionView {
    SessionView {
        semester: reference.dataset_version,
        selection: decoded(reference, datasets),
        pending_deletion: None,
    }
}

/// The session that a reference string opens.
pub open spec fn opened(text: Seq<char>, datasets: Seq<DatasetView>) -> SessionView {
    opened_with(parsed_reference(text), datasets)
}

/// The session after the dataset version `label` is chosen: nothing of the
/// earlier version stays selected.
pub open spec fn after_switch(label: Seq<char>) -> SessionView {
    SessionView { semester: label, selection: Seq::empty(), pending_deletion: None }
}

/// The session after a click on the selected course called `name`: the
/// first click asks for confirmation, the second removes the course.
pub open spec fn after_click(s: SessionView, name: Seq<char>) -> SessionView {
    if s.pending_deletion == Some(name) {
        SessionView {
            semester: s.semester,
            selection: after_remove(s.selection, name),
            pending_deletion: None,
        }
    } else {
        SessionView {
            semester: s.semester,
            selection: s.selection,
            pending_deletion: Some(name),
        }
    }
}

impl Session {
    /// Opens a session from a reference string.
    pub fn open(text: &str, provider: &CatalogProvider) -> (r: Session)
        ensures
            r@ == opened(text@, provider@),
            names_distinct(r@.selection),
    {
        let reference = parse_reference(text);
        let selection = decode(&reference, provider);
        Session { semester: reference.dataset_version, selection, pending_deletion: None }
    }

    /// Opens a session from the values of the fields `s` and `c` of a
    /// reference, each as it was decoded or absent.
    pub fn open_fields(
        version: Option<&str>,
        positions: Option<&str>,
        provider: &CatalogProvider,
    ) -> (r: Session)
        ensures
            r@ == opened_with(reference_of(text_view(version), text_view(positions)), provider@),
            names_distinct(r@.selection),
    {
        let reference = reference_from_fields(version, positions);
        let selection = decode(&reference, provider);
        Session { semester: reference.dataset_version, selection, pending_deletion: None }
    }

    /// The dataset version on display.
    pub fn semester(&self) -> (r: &String)
        ensures
            r@ == self@.semester,
    {
        &self.semester
    }

    /// The selection.
    pub fn selection(&self) -> (r: &Selection)
        ensures
            r@ == self@.selection,
    {
        &self.selection
    }

    /// The name of the course whose removal awaits confirmation.
    pub fn pending_deletion(&self) -> (r: &Option<String>)
        ensures
            name_view(*r) == self@.pending_deletion,
    {
        &self.pending_deletion
    }

    /// Whether the removal of the course called `name` awaits confirmation.
    pub fn is_pending(&self, name: &str) -> (r: bool)
        ensures
            r == (self@.pending_deletion == Some(name@)),
    {
        match &self.pending_deletion {
            Some(p) => same_text(p.as_str(), name),
            None => false,
        }
    }

    /// Chooses the dataset version `label`. The selection is emptied, also
    /// where `label` is the version already on display.
    pub fn switch_semester(&mut self, label: &str)
        ensures
            final(self)@ == after_switch(label@),
    {
        self.semester = label.to_owned();
        self.selection.clear();
        self.pending_deletion = None;
    }

    /// Selects `course`, which replaces the selected courses that it is in
    /// conflict with.
    pub fn select(&mut self, course: Course)
        ensures
            final(self)@ == (SessionView {
                selection: after_add(old(self)@.selection, course@),
                ..old(self)@
            }),
    {
        self.selection.add(course);
    }

    /// Handles a click on the selected course called `name`.
    pub fn click_course(&mut self, name: &str)
        ensures
            final(self)@ == after_click(old(self)@, name@),
    {
        if self.is_pending(name) {
            self.selection.remove(name);
            self.pending_deletion = None;
        } else {
            self.pending_deletion = Some(name.to_owned());
        }
    }

    /// Handles a click anywhere else: no removal awaits confirmation any
    /// more.
    pub fn click_elsewhere(&mut self)
        ensures
            final(self)@ == (SessionView { pending_deletion: None, ..old(self)@ }),
    {
        self.pending_deletion = None;
    }

    /// The reference string of the session, given the catalog of the
    /// dataset version on display.
    pub fn share(&self, catalog: &Vec<Course>) -> (text: String)
        ensures
            text@ == reference_text(
                encoded(self@.selection, views(catalog@), self@.semester),
            ),
    {
        let reference = encode(&self.selection, catalog, self.semester.as_str());
        format_reference(&reference)
    }

    /// The address that shares the session from the page at `href`.
    pub fn share_address(&self, href: &str, catalog: &Vec<Course>) -> (url: String)
        ensures
            url@ == shared_address(
                href@,
                encoded(self@.selection, views(catalog@), self@.semester),
            ),
    {
        let reference = encode(&self.selection, catalog, self.semester.as_str());
        share_url(href, &reference)
    }
}

} // verus!
