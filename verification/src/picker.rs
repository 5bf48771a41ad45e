use vstd::prelude::*;

use crate::display::{format_path, spec_format_path};

verus! {

/// One selectable entry: the string shown to the user and the path a
/// commitment resolves to. The 1-based ordinal is implicit in list position.
pub struct PickerItem {
    pub display: String,
    pub path: String,
}

/// How the selection list is presented: a title line (skipped when empty),
/// the home directory and aliases used to abbreviate paths, and the width
/// the display strings are truncated to.
pub struct PickerConfig {
    pub title: String,
    pub home_dir: Option<String>,
    pub path_aliases: Vec<(String, String)>,
    pub max_display_width: usize,
}

impl Default for PickerConfig {
    fn default() -> (c: Self)
        ensures
            c.title@ == Seq::<char>::empty(),
            c.home_dir is None,
            c.path_aliases@ == Seq::<(String, String)>::empty(),
            c.max_display_width == 80,
    {
        PickerConfig {
            title: String::new(),
            home_dir: None,
            path_aliases: Vec::new(),
            max_display_width: 80,
        }
    }
}

/// Build the picker entries for a candidate list: each path keeps its place
/// and is shown through the display formatter.
pub fn make_picker_items(paths: &Vec<String>, picker_config: &PickerConfig) -> (r: Vec<PickerItem>)
    ensures
        r@.len() == paths@.len(),
        forall|i: int|
            0 <= i < r@.len() ==> r@[i].path@ == paths@[i]@ && r@[i].display@ == spec_format_path(
                paths@[i]@,
                match picker_config.home_dir {
                    Some(h) => Some(h@),
                    None => None,
                },
                picker_config.path_aliases.deep_view(),
                picker_config.max_display_width as int,
            ),
{
    let mut out: Vec<PickerItem> = Vec::new();
    let mut i: usize = 0;
    while i < paths.len()
        invariant
            0 <= i <= paths@.len(),
            out@.len() == i,
            forall|k: int|
                0 <= k < i ==> out@[k].path@ == paths@[k]@ && out@[k].display@ == spec_format_path(
                    paths@[k]@,
                    match picker_config.home_dir {
                        Some(h) => Some(h@),
                        None => None,
                    },
                    picker_config.path_aliases.deep_view(),
                    picker_config.max_display_width as int,
                ),
        decreases paths@.len() - i,
    {
        let display = format_path(
            &paths[i],
            &picker_config.home_dir,
            &picker_config.path_aliases,
            picker_config.max_display_width,
        );
        out.push(PickerItem { display, path: paths[i].clone() });
        i = i + 1;
    }
    out
}

/// The character for one decimal digit value.
pub open spec fn spec_digit_char(d: int) -> char {
    if d == 0 {
        '0'
    } else if d == 1 {
        '1'
    } else if d == 2 {
        '2'
    } else if d == 3 {
        '3'
    } else if d == 4 {
        '4'
    } else if d == 5 {
        '5'
    } else if d == 6 {
        '6'
    } else if d == 7 {
        '7'
    } else if d == 8 {
        '8'
    } else {
        '9'
    }
}

/// The decimal digits of `n`, most significant first.
pub open spec fn spec_dec_digits(n: int) -> Seq<char>
    decreases n,
{
    if n < 10 {
        seq![spec_digit_char(n)]
    } else {
        spec_dec_digits(n / 10).push(spec_digit_char(n % 10))
    }
}

fn digit_str(d: usize) -> (r: &'static str)
    requires
        d < 10,
    ensures
        r@ == seq![spec_digit_char(d as int)],
{
    proof {
        reveal_strlit("0");
        reveal_strlit("1");
        reveal_strlit("2");
        reveal_strlit("3");
        reveal_strlit("4");
        reveal_strlit("5");
        reveal_strlit("6");
        reveal_strlit("7");
        reveal_strlit("8");
        reveal_strlit("9");
    }
    if d == 0 {
        proof {
            assert("0"@ =~= seq!['0']);
        }
        "0"
    } else if d == 1 {
        proof {
            assert("1"@ =~= seq!['1']);
        }
        "1"
    } else if d == 2 {
        proof {
            assert("2"@ =~= seq!['2']);
        }
        "2"
    } else if d == 3 {
        proof {
            assert("3"@ =~= seq!['3']);
        }
        "3"
    } else if d == 4 {
        proof {
            assert("4"@ =~= seq!['4']);
        }
        "4"
    } else if d == 5 {
        proof {
            assert("5"@ =~= seq!['5']);
        }
        "5"
    } else if d == 6 {
        proof {
            assert("6"@ =~= seq!['6']);
        }
        "6"
    } else if d == 7 {
        proof {
            assert("7"@ =~= seq!['7']);
        }
        "7"
    } else if d == 8 {
        proof {
            assert("8"@ =~= seq!['8']);
        }
        "8"
    } else {
        proof {
            assert("9"@ =~= seq!['9']);
        }
        "9"
    }
}

/// `n` written in decimal.
pub fn dec_string(n: usize) -> (r: String)
    ensures
        r@ == spec_dec_digits(n as int),
    decreases n,
{
    if n < 10 {
        String::from_str(digit_str(n))
    } else {
        let mut s = dec_string(n / 10);
        s.append(digit_str(n % 10));
        proof {
            assert(s@ =~= spec_dec_digits(n as int / 10).push(spec_digit_char(n as int % 10)));
        }
        s
    }
}

/// `n` spaces.
pub open spec fn spec_spaces(n: int) -> Seq<char>
    decreases n,
{
    if n <= 0 {
        Seq::<char>::empty()
    } else {
        spec_spaces(n - 1).push(' ')
    }
}

/// The column width the item numbers are padded to: three digits for 100
/// items and up, two for 10 and up, one below that.
pub fn number_width(count: usize) -> (w: usize)
    ensures
        w == if count >= 100 {
            3int
        } else if count >= 10 {
            2int
        } else {
            1int
        },
{
    if count >= 100 {
        3
    } else if count >= 10 {
        2
    } else {
        1
    }
}

/// One rendered list line: ` {index}) {display}` with the index
/// right-justified to `width` digits.
pub open spec fn spec_item_line(index: int, width: int, display: Seq<char>) -> Seq<char> {
    let digits = spec_dec_digits(index);
    seq![' '] + spec_spaces(width - digits.len()) + digits + seq![')', ' '] + display
}

/// Render the line for the item with 1-based ordinal `index`.
pub fn render_item_line(index: usize, width: usize, display: &String) -> (r: String)
    ensures
        r@ == spec_item_line(index as int, width as int, display@),
{
    let digits = dec_string(index);
    let dlen = digits.as_str().unicode_len();
    let mut line = String::from_str(" ");
    proof {
        reveal_strlit(" ");
        assert(" "@ =~= seq![' ']);
        assert(spec_spaces(0) =~= Seq::<char>::empty());
        assert(line@ =~= seq![' '] + spec_spaces(0));
    }
    let target: usize = if width > dlen {
        width - dlen
    } else {
        0
    };
    let mut pad: usize = 0;
    while pad < target
        invariant
            pad <= target,
            line@ == seq![' '] + spec_spaces(pad as int),
            dlen == spec_dec_digits(index as int).len(),
            target == if width > dlen {
                width - dlen
            } else {
                0
            },
        decreases target - pad,
    {
        line.append(" ");
        proof {
            reveal_strlit(" ");
            assert(" "@ =~= seq![' ']);
            assert(line@ =~= seq![' '] + spec_spaces(pad + 1));
        }
        pad = pad + 1;
    }
    proof {
        if width <= dlen {
            assert(spec_spaces(width - dlen) =~= Seq::<char>::empty());
            assert(line@ =~= seq![' '] + spec_spaces(width - dlen));
        }
    }
    line.append(digits.as_str());
    line.append(") ");
    line.append(display.as_str());
    proof {
        reveal_strlit(") ");
        assert(") "@ =~= seq![')', ' ']);
        assert(line@ =~= spec_item_line(index as int, width as int, display@));
    }
    line
}

/// The lines shown above the prompt: the title (indented by one space,
/// skipped when empty), then one numbered line per item.
pub fn render_picker_lines(items: &Vec<PickerItem>, title: &String) -> (r: Vec<String>)
    ensures
        ({
            let headed: int = if title@.len() > 0 {
                1
            } else {
                0
            };
            let width: int = if items@.len() >= 100 {
                3
            } else if items@.len() >= 10 {
                2
            } else {
                1
            };
            &&& r@.len() == items@.len() + headed
            &&& (title@.len() > 0 ==> r@[0]@ == seq![' '] + title@)
            &&& forall|i: int|
                0 <= i < items@.len() ==> r@[headed + i]@ == spec_item_line(
                    i + 1,
                    width,
                    items@[i].display@,
                )
        }),
{
    let mut out: Vec<String> = Vec::new();
    let ghost headed: int = if title@.len() > 0 {
        1int
    } else {
        0int
    };
    if title.as_str().unicode_len() > 0 {
        let mut t = String::from_str(" ");
        t.append(title.as_str());
        proof {
            reveal_strlit(" ");
            assert(" "@ =~= seq![' ']);
            assert(t@ =~= seq![' '] + title@);
        }
        out.push(t);
    }
    let width = number_width(items.len());
    let mut i: usize = 0;
    while i < items.len()
        invariant
            i <= items@.len(),
            headed == if title@.len() > 0 {
                1int
            } else {
                0int
            },
            width == if items@.len() >= 100 {
                3int
            } else if items@.len() >= 10 {
                2int
            } else {
                1int
            },
            out@.len() == headed + i,
            title@.len() > 0 ==> out@[0]@ == seq![' '] + title@,
            forall|k: int|
                0 <= k < i ==> out@[headed + k]@ == spec_item_line(
                    k + 1,
                    width as int,
                    items@[k].display@,
                ),
        decreases items@.len() - i,
    {
        let line = render_item_line(i + 1, width, &items[i].display);
        out.push(line);
        i = i + 1;
    }
    out
}

/// Keys that cancel the selection outright: `q`, `Q` and escape.
pub open spec fn is_cancel_key(b: u8) -> bool {
    b == 113 || b == 81 || b == 27
}

/// Carriage return or newline.
pub open spec fn is_enter_key(b: u8) -> bool {
    b == 13 || b == 10
}

/// An ASCII decimal digit.
pub open spec fn is_digit_key(b: u8) -> bool {
    48 <= b && b <= 57
}

/// Backspace or delete.
pub open spec fn is_backspace_key(b: u8) -> bool {
    b == 127 || b == 8
}

/// The digit buffer after one keystroke. The buffer is the number the typed
/// digits spell (zero when empty: a leading `0` is never accepted, so the
/// digit string is recoverable from the number). A digit that would take the
/// number outside `1..=count` is discarded; backspace drops the last digit.
pub open spec fn spec_buffer_after(buf: int, count: int, b: u8) -> int {
    if is_digit_key(b) {
        let cand = buf * 10 + (b - 48);
        if 1 <= cand && cand <= count {
            cand
        } else {
            buf
        }
    } else if is_backspace_key(b) {
        buf / 10
    } else {
        buf
    }
}

/// Whether one keystroke ends the selection with a cancellation: a cancel
/// key at any buffer state, or Enter on an empty or out-of-range buffer.
pub open spec fn spec_cancels(buf: int, count: int, b: u8) -> bool {
    is_cancel_key(b) || (is_enter_key(b) && !(1 <= buf && buf <= count))
}

/// The 1-based index one keystroke commits, if any: Enter on an in-range
/// buffer commits it, and an accepted digit auto-commits as soon as no
/// further digit could keep the number within `1..=count`.
pub open spec fn spec_commits(buf: int, count: int, b: u8) -> Option<int> {
    if is_enter_key(b) && 1 <= buf && buf <= count {
        Some(buf)
    } else if is_digit_key(b) {
        let cand = buf * 10 + (b - 48);
        if 1 <= cand && cand <= count && cand * 10 > count {
            Some(cand)
        } else {
            None
        }
    } else {
        None
    }
}

/// What one keystroke did, beyond updating the buffer: ended the selection,
/// or asked for a digit to be echoed or visually erased.
pub enum PickerStep {
    Pending { echo: bool, erase: bool },
    Committed { index: usize },
    Cancelled,
}

/// One transition of the selection state machine. `buf` is the current
/// digit buffer as a number (zero when empty), `count` the number of
/// listed items, `b` the byte read from the terminal. Returns the new
/// buffer and what happened.
pub fn picker_step(buf: usize, count: usize, b: u8) -> (r: (usize, PickerStep))
    requires
        buf <= count,
    ensures
        r.0 == spec_buffer_after(buf as int, count as int, b),
        r.0 <= count,
        spec_cancels(buf as int, count as int, b) <==> r.1 is Cancelled,
        match spec_commits(buf as int, count as int, b) {
            Some(n) => r.1 matches PickerStep::Committed { index } && index == n,
            None => !(r.1 is Committed),
        },
        r.1 matches PickerStep::Pending { echo, erase } ==> {
            &&& echo == (is_digit_key(b) && 1 <= buf * 10 + (b - 48) <= count)
            &&& erase == (is_backspace_key(b) && buf > 0)
        },
{
    if b == 113 || b == 81 || b == 27 {
        (buf, PickerStep::Cancelled)
    } else if b == 13 || b == 10 {
        if 1 <= buf && buf <= count {
            (buf, PickerStep::Committed { index: buf })
        } else {
            (buf, PickerStep::Cancelled)
        }
    } else if 48 <= b && b <= 57 {
        let d: u128 = (b - 48) as u128;
        let cand: u128 = buf as u128 * 10 + d;
        if 1 <= cand && cand <= count as u128 {
            let newbuf: usize = cand as usize;
            if cand * 10 > count as u128 {
                (newbuf, PickerStep::Committed { index: newbuf })
            } else {
                (newbuf, PickerStep::Pending { echo: true, erase: false })
            }
        } else {
            (buf, PickerStep::Pending { echo: false, erase: false })
        }
    } else if b == 127 || b == 8 {
        if buf > 0 {
            (buf / 10, PickerStep::Pending { echo: false, erase: true })
        } else {
            (0, PickerStep::Pending { echo: false, erase: false })
        }
    } else {
        (buf, PickerStep::Pending { echo: false, erase: false })
    }
}

/// A cancel key cancels at every buffer state, and Enter on an empty buffer
/// cancels; neither ever commits an item.
pub proof fn lemma_cancel_is_unconditional(buf: int, count: int, b: u8)
    requires
        is_cancel_key(b) || (is_enter_key(b) && buf == 0),
    ensures
        spec_cancels(buf, count, b),
        spec_commits(buf, count, b) is None,
{
}

/// Typing an accepted digit and then backspace returns the buffer to what
/// it was: backspace undoes the digit exactly.
pub proof fn lemma_backspace_undoes_digit(buf: int, count: int, b: u8, bs: u8)
    requires
        0 <= buf,
        is_digit_key(b),
        is_backspace_key(bs),
        1 <= buf * 10 + (b - 48) <= count,
    ensures
        spec_buffer_after(spec_buffer_after(buf, count, b), count, bs) == buf,
{
    let d = b - 48;
    assert(spec_buffer_after(buf, count, b) == buf * 10 + d);
    assert((buf * 10 + d) / 10 == buf) by (nonlinear_arith)
        requires
            0 <= buf && 0 <= d < 10,
    ;
}

} // verus!
