use md_parser::marker::{InlineMarker, LinkMarker};

#[test]
fn link_marker_walks_through_its_states() {
    let mut marker = LinkMarker::new();
    assert!(marker.is_empty());
    assert!(!marker.has_open_text());
    assert!(!marker.has_open_url());
    assert!(!marker.is_link());
    assert_eq!(marker.ranges(), None);

    marker.set_start_text(1);
    assert!(!marker.is_empty());
    assert!(marker.has_open_text());
    assert!(!marker.has_open_url());
    assert!(!marker.is_link());

    marker.set_end_text(3);
    marker.set_start_url(5);
    assert!(!marker.has_open_text());
    assert!(marker.has_open_url());
    assert!(!marker.is_link());
    assert_eq!(marker.ranges(), None);

    marker.set_end_url(7);
    assert!(marker.is_link());
    assert!(!marker.has_open_url());
    assert_eq!(marker.ranges(), Some((1..3, 5..7)));
}

#[test]
fn inline_marker_walks_through_its_states() {
    let mut marker = InlineMarker::new();
    assert!(marker.is_empty());
    assert!(!marker.is_open());
    assert!(!marker.is_closed());
    assert_eq!(marker.range(), None);

    marker.open(2);
    assert!(!marker.is_empty());
    assert!(marker.is_open());
    assert!(!marker.is_closed());
    assert_eq!(marker.range(), None);

    marker.close(5);
    assert!(marker.is_closed());
    assert!(!marker.is_open());
    assert_eq!(marker.range(), Some(2..5));
}

#[test]
fn inline_marker_empty_body_gives_no_range() {
    let mut marker = InlineMarker::new();
    marker.open(3);
    marker.close(3);
    assert!(marker.is_closed());
    assert_eq!(marker.range(), None);

    let mut reversed = InlineMarker::new();
    reversed.open(4);
    reversed.close(2);
    assert_eq!(reversed.range(), None);
}
