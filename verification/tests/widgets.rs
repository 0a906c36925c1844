use alloc_tracker::widgets::{Field, PlayToggle, Section, SectionTitle, Tabbed};

#[test]
fn field_holds_title_and_value() {
    let _field = Field::new("Ptr", "0x40");
}

#[test]
fn section_and_title_construct() {
    let _section = Section::new("Controls");
    let _title = SectionTitle(String::from("Chunk"));
    let _toggle = PlayToggle(true);
}

#[test]
fn tabbed_select_ignores_out_of_range_index() {
    let mut tabs = Tabbed::new();
    tabs.add(String::from("one"), 1);
    tabs.add(String::from("two"), 2);
    tabs.select(5);
    tabs.select(1);
    tabs.select(2);
}
