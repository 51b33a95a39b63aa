use typed_fsm_diagram::labels::{clean_tokens, copy_label, merge_labels};

#[test]
fn test_clean_tokens() {
    let input = "ctx . timer . is_expired ( )".to_string();
    assert_eq!(clean_tokens(input), "ctx.timer.is_expired()");

    let input = "ButtonEvent :: Press".to_string();
    assert_eq!(clean_tokens(input), "ButtonEvent::Press");

    let input = "if ! ctx . is_active ( )".to_string();
    assert_eq!(clean_tokens(input), "if !ctx.is_active()");

    let input = "ctx.tick_count>=3".to_string();
    assert_eq!(clean_tokens(input), "ctx.tick_count >= 3");

    let input = "a && b || c".to_string();
    assert_eq!(clean_tokens(input), "a and b or c");

    let input = "HeaderScheduleEvent :: Apply { resweep , force_occupancy_broadcast , occupancy_changed , }".to_string();
    assert_eq!(clean_tokens(input), "HeaderScheduleEvent::Apply<br/>{ resweep, force_occupancy_broadcast, occupancy_changed }");

    let input = "Event :: A | Event :: B".to_string();
    assert_eq!(clean_tokens(input), "Event::A | Event::B");

    let input = "Apply{a,b,}".to_string();
    assert_eq!(clean_tokens(input), "Apply<br/>{ a, b }");
}

#[test]
fn operators_are_spaced() {
    assert_eq!(clean_tokens("a+b-c*d/e".to_string()), "a + b - c * d / e");
    assert_eq!(clean_tokens("a==b".to_string()), "a == b");
    assert_eq!(clean_tokens("a!=b".to_string()), "a != b");
    assert_eq!(clean_tokens("x<=1".to_string()), "x <= 1");
    assert_eq!(clean_tokens("x<1".to_string()), "x < 1");
    assert_eq!(clean_tokens("n+=1".to_string()), "n += 1");
    assert_eq!(clean_tokens("a=>b".to_string()), "a => b");
    assert_eq!(clean_tokens("f()->u8".to_string()), "f() -> u8");
}

#[test]
fn a_label_is_one_line_with_plain_spaces() {
    assert_eq!(clean_tokens("a\r\n  b\tc".to_string()), "a b c");
    assert_eq!(clean_tokens(String::new()), "");
    assert_eq!(clean_tokens(" \n ".to_string()), "");
}

#[test]
fn no_pipe_pipe_is_left() {
    assert_eq!(clean_tokens("a||b|||c".to_string()), "a or b or | c");
}

#[test]
fn labels_without_guards_are_joined() {
    assert_eq!(merge_labels(None, "Press".to_string(), false), "Press");
    assert_eq!(merge_labels(Some("A".to_string()), "B".to_string(), false), "A B");
}

#[test]
fn guards_stand_behind_events() {
    assert_eq!(merge_labels(None, "ready".to_string(), true), "<br/>[ if ready ]");
    assert_eq!(
        merge_labels(Some("Press".to_string()), "ready".to_string(), true),
        "Press<br/>[ if ready ]"
    );
}

#[test]
fn nested_guards_are_joined() {
    let outer = merge_labels(Some("Press".to_string()), "a".to_string(), true);
    assert_eq!(merge_labels(Some(outer), "b".to_string(), true), "Press<br/>[ if a and b ]");
}

#[test]
fn a_label_is_copied() {
    assert_eq!(copy_label(&Some("x".to_string())), Some("x".to_string()));
    assert_eq!(copy_label(&None), None);
}

#[test]
fn white_space_makes_no_difference_to_a_label() {
    let label = clean_tokens("Evt :: Go { a , b } if x && y".to_string());
    for s in ["\tEvt\n::\r\nGo  { a , b }\u{2003}if x  && y ", " Evt :: Go {\na , b }\tif x && y"] {
        assert_eq!(clean_tokens(s.to_string()), label);
    }
}
