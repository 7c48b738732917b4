use pstree::term::{output_width, width_from_winsize};

#[test]
fn winsize_outcomes() {
    assert_eq!(width_from_winsize(0, 120), Some(120));
    assert_eq!(width_from_winsize(0, 0), None);
    assert_eq!(width_from_winsize(-1, 120), None);
}

#[test]
fn width_choice() {
    assert_eq!(output_width(true, Some(100)), None);
    assert_eq!(output_width(false, Some(100)), Some(100));
    assert_eq!(output_width(false, None), Some(80));
}
