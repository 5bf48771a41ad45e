use cdm::picker::{
    dec_string, make_picker_items, number_width, picker_step, render_picker_lines, PickerConfig,
    PickerItem, PickerStep,
};

/// Feed keystrokes until the machine ends the selection.
fn run_keys(count: usize, keys: &[u8]) -> Option<usize> {
    let mut buf: usize = 0;
    for &b in keys {
        let (next, step) = picker_step(buf, count, b);
        match step {
            PickerStep::Committed { index } => return Some(index),
            PickerStep::Cancelled => return None,
            PickerStep::Pending { .. } => buf = next,
        }
    }
    panic!("keystrokes ran out before the selection ended");
}

#[test]
fn two_digit_commit() {
    assert_eq!(run_keys(12, &[b'1', b'2', b'\n']), Some(12));
}

#[test]
fn auto_commit_when_no_digit_could_follow() {
    assert_eq!(run_keys(12, &[b'5']), Some(5));
    assert_eq!(run_keys(3, &[b'2']), Some(2));
}

#[test]
fn no_auto_commit_when_more_digits_fit() {
    let (buf, step) = picker_step(0, 25, b'2');
    assert_eq!(buf, 2);
    assert!(matches!(step, PickerStep::Pending { echo: true, erase: false }));
    assert_eq!(run_keys(25, &[b'2', b'\n']), Some(2));
    assert_eq!(run_keys(25, &[b'2', b'4', b'\n']), Some(24));
}

#[test]
fn cancel_key_cancels_any_buffer() {
    assert_eq!(run_keys(200, &[b'q']), None);
    assert_eq!(run_keys(200, &[b'1', b'2', b'q']), None);
    assert_eq!(run_keys(200, &[b'1', b'Q']), None);
    assert_eq!(run_keys(200, &[0x1b]), None);
}

#[test]
fn enter_on_empty_buffer_cancels() {
    assert_eq!(run_keys(5, &[b'\n']), None);
    assert_eq!(run_keys(5, &[b'\r']), None);
}

#[test]
fn out_of_range_digit_is_discarded_and_enter_cancels() {
    let (buf, step) = picker_step(0, 5, b'9');
    assert_eq!(buf, 0);
    assert!(matches!(step, PickerStep::Pending { echo: false, erase: false }));
    assert_eq!(run_keys(5, &[b'9', b'\n']), None);
}

#[test]
fn zero_is_never_a_valid_index() {
    let (buf, step) = picker_step(0, 5, b'0');
    assert_eq!(buf, 0);
    assert!(matches!(step, PickerStep::Pending { echo: false, erase: false }));
}

#[test]
fn backspace_undoes_a_digit() {
    assert_eq!(run_keys(200, &[b'1', b'2', 0x7f, b'\n']), Some(1));
    assert_eq!(run_keys(200, &[b'1', b'2', 0x08, b'\n']), Some(1));
}

#[test]
fn backspace_on_empty_buffer_is_ignored() {
    let (buf, step) = picker_step(0, 5, 0x7f);
    assert_eq!(buf, 0);
    assert!(matches!(step, PickerStep::Pending { echo: false, erase: false }));
}

#[test]
fn unrelated_bytes_are_ignored() {
    assert_eq!(run_keys(5, &[b'x', b' ', b'3']), Some(3));
}

#[test]
fn number_width_steps() {
    assert_eq!(number_width(9), 1);
    assert_eq!(number_width(10), 2);
    assert_eq!(number_width(99), 2);
    assert_eq!(number_width(100), 3);
}

#[test]
fn decimal_rendering() {
    assert_eq!(dec_string(0), "0");
    assert_eq!(dec_string(7), "7");
    assert_eq!(dec_string(120), "120");
}

#[test]
fn rendered_lines() {
    let items = vec![
        PickerItem { display: String::from("alpha"), path: String::from("/a") },
        PickerItem { display: String::from("beta"), path: String::from("/b") },
    ];
    let lines = render_picker_lines(&items, &String::from("recent"));
    assert_eq!(lines, vec![" recent", " 1) alpha", " 2) beta"]);
    let no_title = render_picker_lines(&items, &String::new());
    assert_eq!(no_title, vec![" 1) alpha", " 2) beta"]);
}

#[test]
fn rendered_lines_pad_wide_indexes() {
    let mut items = Vec::new();
    for i in 0..12 {
        items.push(PickerItem { display: format!("d{}", i), path: format!("/p{}", i) });
    }
    let lines = render_picker_lines(&items, &String::new());
    assert_eq!(lines[0], "  1) d0");
    assert_eq!(lines[11], " 12) d11");
}

#[test]
fn picker_items_carry_paths_and_formatted_displays() {
    let config = PickerConfig {
        title: String::new(),
        home_dir: Some(String::from("/home/u")),
        path_aliases: Vec::new(),
        max_display_width: 80,
    };
    let paths = vec![String::from("/home/u/src"), String::from("/etc")];
    let items = make_picker_items(&paths, &config);
    assert_eq!(items.len(), 2);
    assert_eq!(items[0].display, "~/src");
    assert_eq!(items[0].path, "/home/u/src");
    assert_eq!(items[1].display, "/etc");
}

#[test]
fn default_config_is_plain() {
    let c = PickerConfig::default();
    assert_eq!(c.title, "");
    assert!(c.home_dir.is_none());
    assert_eq!(c.max_display_width, 80);
}
