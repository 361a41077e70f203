use fzmenu::font::Font;
use fzmenu::launcher::{commands, App, Command, Event, Keycode, Modifiers};

const NONE: Modifiers = Modifiers { ctrl: false, alt: false, logo: false };
const CTRL: Modifiers = Modifiers { ctrl: true, alt: false, logo: false };

fn atlas() -> Font {
    let mut bytes = b"P4\n64 6\n".to_vec();
    let mut bits = vec![0u8; 48];
    bits[0] = 0b1000_0000;
    bits[8] = 0b0100_0000;
    bits[16] = 0b0011_0000;
    bytes.extend_from_slice(&bits);
    Font::from_pbm(&bytes).unwrap()
}

fn key(modifiers: Modifiers, keycode: Keycode, text: Option<&str>) -> Event {
    Event::Keyboard { modifiers, keycode, utf8: text.map(|s| s.to_string()) }
}

fn app(options: &[&str]) -> App {
    App::new(atlas(), options.iter().map(|s| s.to_string()).collect(), false)
}

#[test]
fn bindings_of_keys() {
    assert_eq!(commands(&key(CTRL, Keycode::Letter('w'), Some("\u{17}")), false), vec![Command::DeleteWord]);
    assert_eq!(commands(&key(NONE, Keycode::Letter('a'), Some("a")), false), vec![Command::Insert('a')]);
    assert_eq!(commands(&key(NONE, Keycode::Escape, None), false), vec![Command::Close]);
    assert_eq!(commands(&key(CTRL, Keycode::Letter('c'), Some("c")), false), vec![Command::Close]);
    assert_eq!(commands(&key(NONE, Keycode::Return, Some("\r")), false), vec![Command::Confirm]);
    assert_eq!(commands(&key(CTRL, Keycode::Down, None), false), vec![Command::Next]);
    assert_eq!(commands(&key(CTRL, Keycode::Letter('p'), None), false), vec![Command::Prev]);
    let alt = Modifiers { ctrl: false, alt: true, logo: false };
    assert_eq!(commands(&key(alt, Keycode::Letter('x'), Some("x")), false), vec![]);
    assert_eq!(commands(&Event::Focused(false), false), vec![Command::Close]);
    assert_eq!(commands(&Event::Focused(false), true), vec![]);
    assert_eq!(commands(&Event::Focused(true), false), vec![]);
}

#[test]
fn typing_then_return_outputs_query_without_matches() {
    let mut a = app(&[]);
    assert_eq!(a.handle_events(key(NONE, Keycode::Letter('h'), Some("h"))), None);
    assert_eq!(a.handle_events(key(NONE, Keycode::Letter('i'), Some("i"))), None);
    assert!(a.running());
    assert_eq!(a.handle_events(key(NONE, Keycode::Return, Some("\r"))), Some("hi".to_string()));
    assert!(!a.running());
}

#[test]
fn return_outputs_selected_option() {
    let mut a = app(&["first", "second"]);
    a.picker.update();
    a.handle_events(key(NONE, Keycode::Down, None));
    assert_eq!(a.handle_events(key(NONE, Keycode::Return, None)), Some("second".to_string()));
}

#[test]
fn ctrl_bindings_edit_query() {
    let mut a = app(&[]);
    for c in "foo  bar".chars() {
        a.handle_events(key(NONE, Keycode::Other, Some(&c.to_string())));
    }
    a.handle_events(key(CTRL, Keycode::Letter('w'), None));
    assert_eq!(a.picker.query(), "foo");
    a.handle_events(key(CTRL, Keycode::Letter('a'), None));
    assert_eq!(a.picker.cursor(), 0);
    a.handle_events(key(CTRL, Keycode::Letter('k'), None));
    assert_eq!(a.picker.query(), "");
}

#[test]
fn focus_loss_closes_unless_kept_open() {
    let mut a = app(&[]);
    a.handle_events(Event::Focused(false));
    assert!(!a.running());
    let mut b = App::new(atlas(), vec![], true);
    b.handle_events(Event::Focused(false));
    assert!(b.running());
    b.close();
    assert!(!b.running());
}

fn pixel(canvas: &[u8], width: usize, x: usize, y: usize) -> [u8; 4] {
    let i = 4 * (y * width + x);
    [canvas[i], canvas[i + 1], canvas[i + 2], canvas[i + 3]]
}

#[test]
fn draw_paints_background_matches_and_cursor() {
    let mut a = app(&["A"]);
    let width = 8usize;
    let height = 6usize;
    let mut canvas = vec![7u8; width * height * 4];
    a.draw(&mut canvas, width as u32, height as u32);
    // cursor bar at column 0 of the query line
    assert_eq!(pixel(&canvas, width, 0, 0), [0, 0, 0, 255]);
    assert_eq!(pixel(&canvas, width, 0, 1), [0, 0, 0, 255]);
    // empty query: the rest of the first line is background
    assert_eq!(pixel(&canvas, width, 1, 0), [255, 255, 255, 255]);
    // selected match line "> A", inverted: '>' is blank, so white
    assert_eq!(pixel(&canvas, width, 0, 2), [255, 255, 255, 255]);
    // ' ' glyph is a diagonal: set samples become black
    assert_eq!(pixel(&canvas, width, 2, 2), [0, 0, 0, 255]);
    assert_eq!(pixel(&canvas, width, 3, 2), [255, 255, 255, 255]);
    assert_eq!(pixel(&canvas, width, 3, 3), [0, 0, 0, 255]);
    // 'A' glyph has its top row set
    assert_eq!(pixel(&canvas, width, 4, 2), [0, 0, 0, 255]);
    assert_eq!(pixel(&canvas, width, 4, 3), [255, 255, 255, 255]);
    // nothing on the third line
    assert_eq!(pixel(&canvas, width, 0, 4), [255, 255, 255, 255]);
    assert_eq!(a.picker.matches, vec![(0, 0)]);
}
