use mor_website_ui::widget_layout::{
    parse_fields, parse_parts, parse_slots, remove, reorder, set_field, set_visible, set_widget_title,
    Part,
};

fn ids(xml: &str) -> Vec<String> {
    parse_slots(xml).into_iter().map(|s| s.id).collect()
}

const DOC: &str = "<main>\n<b:widget id='A' type='HTML'>a</b:widget>\n  <b:widget id='B' type='Blog' visible=\"false\">b</b:widget>\n<b:widget id='C'>c</b:widget>\n</main>";

#[test]
fn reorder_moves_one_card_and_keeps_the_rest() {
    assert_eq!(ids(&reorder(DOC, 0, 2)), vec!["B", "C", "A"]);
    assert_eq!(ids(&reorder(DOC, 2, 0)), vec!["C", "A", "B"]);
    assert_eq!(reorder(DOC, 1, 1), DOC);
    assert_eq!(reorder(DOC, 0, 9), DOC);
    let out = reorder(DOC, 0, 1);
    assert!(out.starts_with("<main>\n<b:widget id='B'"));
    assert!(out.ends_with("</b:widget>\n</main>"));
}

#[test]
fn an_unclosed_last_widget_swallows_what_is_moved_behind_it() {
    let xml = "<b:widget id='A'></b:widget><b:widget id='B'>";
    assert_eq!(ids(&reorder(xml, 1, 0)), vec!["B"]);
}

#[test]
fn remove_joins_the_neighbours_with_one_newline() {
    assert_eq!(remove(DOC, 1), "<main>\n<b:widget id='A' type='HTML'>a</b:widget>\n<b:widget id='C'>c</b:widget>\n</main>");
    assert_eq!(ids(&remove(DOC, 0)), vec!["B", "C"]);
    assert_eq!(ids(&remove(DOC, 2)), vec!["A", "B"]);
    assert_eq!(remove(DOC, 3), DOC);
}

#[test]
fn remove_can_wake_a_widget_look_alike() {
    let xml = "<b:widget<b:widget id='a'></b:widget>";
    assert_eq!(parse_slots(xml).len(), 1);
    assert_eq!(parse_slots(&remove(xml, 0)).len(), 1);
    assert_eq!(remove(xml, 0), "<b:widget\n");
}

#[test]
fn set_visible_rewrites_each_quoting_style() {
    let single = "<b:widget id='A' visible='true'>x</b:widget>";
    assert_eq!(set_visible(single, 0, false), "<b:widget id='A' visible='false'>x</b:widget>");
    let double = "<b:widget id='A' visible=\"false\">x</b:widget>";
    assert_eq!(set_visible(double, 0, true), "<b:widget id='A' visible=\"true\">x</b:widget>");
    let none = "<b:widget id='A'>x</b:widget>";
    assert_eq!(set_visible(none, 0, false), "<b:widget visible='false' id='A'>x</b:widget>");
    for (xml, v) in [(single, false), (double, true), (none, false), (none, true)] {
        let s = parse_slots(&set_visible(xml, 0, v));
        assert_eq!(s.len(), 1);
        assert_eq!(s[0].visible, v);
        assert_eq!(s[0].id, "A");
    }
}

#[test]
fn set_visible_leaves_other_cards_alone() {
    let out = set_visible(DOC, 1, true);
    let s = parse_slots(&out);
    assert_eq!(s.len(), 3);
    assert!(s[1].visible);
    assert_eq!((s[0].id.as_str(), s[2].id.as_str()), ("A", "C"));
    assert_eq!(set_visible(DOC, 7, true), DOC);
}

#[test]
fn set_widget_title_reads_back_in_each_quoting_style() {
    let single = "<b:widget id='W1' title='Old'>a</b:widget><b:widget id='W2' title='Two'>b</b:widget>";
    let out = set_widget_title(single, "New & <Shiny>".trim_end_matches('>'));
    let s = parse_slots(&out);
    assert_eq!(s.len(), 2);
    assert_eq!(s[0].title, "New &amp; &lt;Shiny");
    assert_eq!(s[1].title, "Two");
    assert_eq!(s[1].id, "W2");

    let double = "<b:widget id=\"W1\" title=\"Old\">a</b:widget>";
    let out = set_widget_title(double, "Say \"hi\"");
    assert_eq!(out, "<b:widget id=\"W1\" title=\"Say &quot;hi&quot;\">a</b:widget>");
    assert_eq!(parse_slots(&out)[0].title, "Say &quot;hi&quot;");

    let none = "<b:widget id='W1'>a</b:widget>";
    let out = set_widget_title(none, "It's");
    assert_eq!(out, "<b:widget title='It&#39;s' id='W1'>a</b:widget>");
    assert_eq!(parse_slots(&out)[0].title, "It&#39;s");
}

#[test]
fn set_widget_title_leaves_an_unclosed_single_quoted_title() {
    let xml = "<b:widget title=\"T\" x=\"title='\">a</b:widget>";
    assert_eq!(set_widget_title(xml, "New"), xml);
}

#[test]
fn a_title_with_a_closing_bracket_ends_the_tag_early() {
    let xml = "<b:widget id='W1' title='Old'>a</b:widget>";
    let out = set_widget_title(xml, "a>b");
    assert_ne!(parse_slots(&out)[0].title, "a>b");
}

#[test]
fn set_field_reads_back_text_and_attribute_fields() {
    let xml = "<b:widget id='W1'><a href='https://wikipedia.org/wiki/' data-mor-field='href|Base URL'>x</a>\
               <b:widget-setting data-mor-field='text|Mode|A,B'> A </b:widget-setting>\
               <img data-mor-field='src|Image' src='old.png'/></b:widget>";
    let before = parse_fields(xml);
    assert_eq!(before.len(), 3);

    let out = set_field(xml, 0, "https://de.wikipedia.org/wiki/");
    let after = parse_fields(&out);
    assert_eq!(after[0].value, "https://de.wikipedia.org/wiki/");
    assert_eq!(after[0].label, "Base URL");

    let out = set_field(xml, 1, " B ");
    let after = parse_fields(&out);
    assert_eq!(after[1].value, "B");
    assert_eq!(after[1].label, "Mode");
    assert_eq!(after[1].options, vec!["A".to_string(), "B".to_string()]);

    let out = set_field(xml, 2, "new.png");
    let after = parse_fields(&out);
    assert_eq!(after[2].value, "new.png");
    assert_eq!(after[2].label, "Image");
}

#[test]
fn set_field_keeps_the_other_fields() {
    let xml = "<b:widget id='W1'><a href='https://wikipedia.org/wiki/' data-mor-field='href|Base URL'>x</a>\
               <b:widget-setting data-mor-field='text|Mode|A,B'> A </b:widget-setting>\
               <img data-mor-field='src|Image' src='old.png'/></b:widget>";
    let before = parse_fields(xml);
    for (index, value) in [(0usize, "https://de.wikipedia.org/"), (1, "B"), (2, "new.png")] {
        let after = parse_fields(&set_field(xml, index, value));
        assert_eq!(after.len(), before.len());
        for j in 0..before.len() {
            assert_eq!(after[j].label, before[j].label);
            assert_eq!(after[j].options, before[j].options);
            if j != index {
                assert_eq!(after[j].value, before[j].value);
            }
        }
    }
}

#[test]
fn a_marker_in_the_written_text_goes_with_it() {
    let xml = "<p data-mor-field='text|Body'>data-mor-field='text|Inner'</p>";
    assert_eq!(parse_fields(xml).len(), 2);
    assert_eq!(parse_fields(&set_field(xml, 0, "plain")).len(), 1);
}

#[test]
fn set_field_leaves_a_missing_attribute_alone() {
    let xml = "<a data-mor-field='href|Link'>x</a>";
    assert_eq!(set_field(xml, 0, "https://example.org/"), xml);
}

#[test]
fn set_field_escapes_markup_in_values() {
    let xml = "<p data-mor-field='text|Body'>old</p>";
    let out = set_field(xml, 0, "a<b & c");
    assert_eq!(out, "<p data-mor-field='text|Body'>a&lt;b &amp; c</p>");
    assert_eq!(parse_fields(&out)[0].value, "a&lt;b &amp; c");
}

#[test]
fn setting_the_same_title_twice_settles() {
    for xml in [
        "<b:widget id='W1' title='Old'>a</b:widget>",
        "<b:widget id=\"W1\" title=\"Old\">a</b:widget>",
        "<b:widget id='W1'>a</b:widget><b:widget id='W2'>b</b:widget>",
    ] {
        let once = set_widget_title(xml, "New & Shiny");
        assert_eq!(set_widget_title(&once, "New & Shiny"), once);
    }
}

#[test]
fn set_visible_keeps_the_rest_of_the_card() {
    let xml = "<b:widget id='W1' type='HTML' title='T' visible='true'>a</b:widget><b:widget id='W2'>b</b:widget>";
    for (i, v) in [(0, false), (1, false), (1, true)] {
        let before = parse_slots(xml);
        let after = parse_slots(&set_visible(xml, i, v));
        assert_eq!(after.len(), before.len());
        assert_eq!(after[i].id, before[i].id);
        assert_eq!(after[i].w_type, before[i].w_type);
        assert_eq!(after[i].title, before[i].title);
        assert_eq!(after[i].visible, v);
    }
}

#[test]
fn an_id_read_from_inside_the_old_flag_changes_with_it() {
    let xml = "<b:widget visible='xid=' id='b'>a</b:widget>";
    assert_eq!(parse_slots(xml)[0].id, " id=");
    assert_eq!(parse_slots(&set_visible(xml, 0, true))[0].id, "b");
}

#[test]
fn set_widget_title_keeps_the_rest_of_the_card() {
    let xml = "<b:widget id='W1' type='Blog' visible='false' title='Old'>a</b:widget>";
    let out = set_widget_title(xml, "New");
    let (s, t) = (parse_slots(xml), parse_slots(&out));
    assert_eq!(t[0].title, "New");
    assert_eq!((t[0].id.as_str(), t[0].w_type.as_str(), t[0].visible), (s[0].id.as_str(), s[0].w_type.as_str(), s[0].visible));
    let out = set_widget_title("<b:widget id='W1' type='Blog'>a</b:widget>", "New");
    let t = parse_slots(&out);
    assert_eq!((t[0].id.as_str(), t[0].w_type.as_str(), t[0].title.as_str()), ("W1", "Blog", "New"));
}

#[test]
fn widget_parts_match_the_cards() {
    let xml = "{{LAYOUT_BLOCKS}}<b:section id='m'><b:widget id='A' type='HTML' title='T' visible='false'>x</b:widget></b:section>{{X}}<b:widget id='B'>y</b:widget>";
    let slots = parse_slots(xml);
    let widgets: Vec<(usize, String, String, String, bool)> = parse_parts(xml)
        .into_iter()
        .filter_map(|p| match p {
            Part::Widget { slot, id, w_type, title, visible } => Some((slot, id, w_type, title, visible)),
            _ => None,
        })
        .collect();
    assert_eq!(widgets.len(), slots.len());
    for (k, w) in widgets.iter().enumerate() {
        assert_eq!(w.0, k);
        assert_eq!((&w.1, &w.2, &w.3, w.4), (&slots[k].id, &slots[k].w_type, &slots[k].title, slots[k].visible));
    }
}

#[test]
fn removing_where_every_widget_text_is_a_block() {
    let xml = "<div>\n<b:widget id='A'>a</b:widget>\n  <b:widget id='B'>b</b:widget>\n<b:widget id='C'>c</b:widget></div>";
    let out = remove(xml, 1);
    let ids: Vec<String> = parse_slots(&out).into_iter().map(|w| w.id).collect();
    assert_eq!(ids, vec!["A".to_string(), "C".to_string()]);
}
