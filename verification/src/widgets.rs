//! Plain data carried by the rendering layer's widgets: a labelled
//! field, a collapsible section, a tab strip and a play toggle.  The
//! drawing itself belongs to the rendering layer, not to this crate.
use vstd::prelude::*;

verus! {

/// A read-only title/value pair shown in the detail panel.
pub struct Field {
    title: String,
    value: String,
}

/// Mathematical image of a [`Field`].
pub struct FieldModel {
    pub title: Seq<char>,
    pub value: Seq<char>,
}

impl View for Field {
    type V = FieldModel;

    closed spec fn view(&self) -> FieldModel {
        FieldModel { title: self.title@, value: self.value@ }
    }
}

impl Field {
    pub fn new(title: &str, value: &str) -> (r: Field)
        ensures
            r@ == (FieldModel { title: title@, value: value@ }),
    {
        Field { title: title.to_owned(), value: value.to_owned() }
    }
}

/// Heading text of a section.
pub struct SectionTitle(pub String);

/// A titled, collapsible container; it starts expanded.
pub struct Section {
    title: String,
    is_shown: bool,
}

/// Mathematical image of a [`Section`].
pub struct SectionModel {
    pub title: Seq<char>,
    pub is_shown: bool,
}

impl View for Section {
    type V = SectionModel;

    closed spec fn view(&self) -> SectionModel {
        SectionModel { title: self.title@, is_shown: self.is_shown }
    }
}

impl Section {
    pub fn new(title: &str) -> (r: Section)
        ensures
            r@ == (SectionModel { title: title@, is_shown: true }),
    {
        Section { title: title.to_owned(), is_shown: true }
    }
}

/// A play/pause button; the flag is whether playback is on.
pub struct PlayToggle(pub bool);

/// A strip of titled tabs with one selected index.
pub struct Tabbed {
    titles: Vec<String>,
    contents: Vec<u8>,
    selected_idx: usize,
}

/// Mathematical image of a [`Tabbed`].
pub struct TabbedModel {
    pub titles: Seq<Seq<char>>,
    pub contents: Seq<u8>,
    pub selected_idx: int,
}

impl View for Tabbed {
    type V = TabbedModel;

    closed spec fn view(&self) -> TabbedModel {
        TabbedModel {
            titles: self.titles.deep_view(),
            contents: self.contents@,
            selected_idx: self.selected_idx as int,
        }
    }
}

impl Tabbed {
    pub fn new() -> (r: Tabbed)
        ensures
            r@.titles == Seq::<Seq<char>>::empty(),
            r@.contents == Seq::<u8>::empty(),
            r@.selected_idx == 0,
    {
        let r = Tabbed { titles: Vec::new(), contents: Vec::new(), selected_idx: 0 };
        proof {
            assert(r@.titles =~= Seq::<Seq<char>>::empty());
        }
        r
    }

    pub fn add(&mut self, title: String, content: u8)
        ensures
            final(self)@.titles == old(self)@.titles.push(title@),
            final(self)@.contents == old(self)@.contents.push(content),
            final(self)@.selected_idx == old(self)@.selected_idx,
    {
        let ghost before = self.titles.deep_view();
        let ghost t = title@;
        self.titles.push(title);
        self.contents.push(content);
        proof {
            assert(self.titles.deep_view() =~= before.push(t));
        }
    }

    /// Select the tab at `idx`; an index past the last tab is ignored.
    pub fn select(&mut self, idx: usize)
        ensures
            final(self)@.selected_idx == if idx < old(self)@.titles.len() {
                idx as int
            } else {
                old(self)@.selected_idx
            },
            final(self)@.titles == old(self)@.titles,
            final(self)@.contents == old(self)@.contents,
    {
        if idx < self.titles.len() {
            self.selected_idx = idx;
        }
    }
}

} // verus!
