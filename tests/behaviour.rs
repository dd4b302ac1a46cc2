use virtual_whitespace::content::{Content, GetString};
use virtual_whitespace::whitespace::{Whitespace, WhitespaceChar};

fn is_padded(plain: &str, shown: &str) -> bool {
    let mut rest = plain.chars().peekable();
    for c in shown.chars() {
        if rest.peek() == Some(&c) {
            rest.next();
        } else if c != ' ' && c != '\n' {
            return false;
        }
    }
    rest.next().is_none()
}

#[test]
fn round_trip_keeps_whitespace() {
    for text in ["", " ", "\n\n", "a", "  a b\n\n  c  \n", "fn f ( ) { }\n"] {
        let c = Content::from_string(text);
        assert_eq!(c.get_string(), text);
        assert_eq!(c.typed_string(), text);
    }
}

#[test]
fn reconciling_twice_changes_nothing() {
    let typed = "let x=(a+1)*b;";
    let visible = "let x = (a + 1) * b;\n";
    let mut c = Content::from_strings(typed, visible);
    let once = c.get_string();
    assert_eq!(once, visible);
    c.update_virtual_whitespace_2(visible);
    assert_eq!(c.get_string(), once);
}

#[test]
fn reconciled_text_only_adds_whitespace() {
    let typed = "fn a(x:u8){x+1}";
    let visible = "fn a(x: u8) {\n    x + 1\n}\n";
    let c = Content::from_strings(typed, visible);
    let shown = c.get_string();
    assert!(is_padded(typed, &shown));
    assert_eq!(c.typed_string(), typed);
    assert!(!is_padded("fn a(x:u8){x+2}", &shown));
}

#[test]
fn right_then_left_returns_to_start() {
    let text = "ab \n c";
    for n in 0..12 {
        let mut c = Content::from_string(text);
        for _ in 0..n {
            c.cursor_right();
        }
        for _ in 0..n {
            c.cursor_left();
        }
        assert_eq!(c.cursor_pos(), ((0, 0), (0, 0)));
    }
}

#[test]
fn right_stops_at_the_end() {
    let mut c = Content::from_string("a\n");
    for _ in 0..5 {
        c.cursor_right();
    }
    assert_eq!(c.cursor_pos(), ((1, 0), (1, 0)));
    c.cursor_left();
    assert_eq!(c.cursor_pos(), ((0, 1), (0, 1)));
}

#[test]
fn cursor_range_covers_virtual_padding() {
    let mut c = Content::from_strings("a5", "a\n  5");
    assert_eq!(c.get_string(), "a\n  5");
    c.cursor_right();
    assert_eq!(c.cursor_pos(), ((0, 1), (0, 1)));
    c.cursor_right();
    assert_eq!(c.cursor_pos(), ((0, 1), (1, 2)));
    assert_eq!(c.cursor_pos_2(), (((0, 1), (1, 2)), (0, 1)));
    c.cursor_left();
    c.cursor_right();
    c.cursor_left();
    c.cursor_left();
    c.cursor_right();
    c.cursor_right();
    assert_eq!(c.cursor_pos_2(), (((0, 1), (1, 2)), (0, 1)));
}

#[test]
fn cursor_pos_2_picks_end_on_sticky_line() {
    let mut c = Content::from_strings("a5", "a\n  5");
    c.cursor_right();
    c.cursor_right();
    c.cursor_right();
    c.cursor_left();
    assert_eq!(c.cursor_pos_2(), (((0, 1), (1, 2)), (1, 2)));
}

#[test]
fn vertical_moves_and_line_ends() {
    let mut c = Content::from_string("ab\ncd");
    c.cursor_down();
    assert_eq!(c.cursor_pos(), ((1, 0), (1, 0)));
    c.cursor_end();
    assert_eq!(c.cursor_pos(), ((1, 2), (1, 2)));
    c.cursor_up();
    assert_eq!(c.cursor_pos(), ((0, 2), (0, 2)));
    c.cursor_home();
    assert_eq!(c.cursor_pos(), ((0, 0), (0, 0)));
    c.cursor_end();
    assert_eq!(c.cursor_pos(), ((0, 2), (0, 2)));
    c.cursor_up();
    assert_eq!(c.cursor_pos(), ((0, 2), (0, 2)));
}

#[test]
fn sticky_column_survives_a_short_line() {
    let mut c = Content::from_string("abcd\nx\nefgh");
    for _ in 0..3 {
        c.cursor_right();
    }
    assert_eq!(c.cursor_pos(), ((0, 3), (0, 3)));
    c.cursor_down();
    assert_eq!(c.cursor_pos(), ((1, 1), (1, 1)));
    c.cursor_down();
    assert_eq!(c.cursor_pos(), ((2, 3), (2, 3)));
}

#[test]
fn down_past_last_line_goes_to_end() {
    let mut c = Content::from_string("ab");
    c.cursor_down();
    assert_eq!(c.cursor_pos(), ((0, 2), (0, 2)));
    let mut e = Content::from_string("");
    e.cursor_up();
    e.cursor_home();
    e.cursor_end();
    e.cursor_down();
    assert_eq!(e.cursor_pos(), ((0, 0), (0, 0)));
}

#[test]
fn home_on_empty_last_line() {
    let mut c = Content::from_string("ab\n");
    c.cursor_down();
    c.cursor_home();
    assert_eq!(c.cursor_pos(), ((1, 0), (1, 0)));
}

#[test]
fn insert_characters_and_whitespace() {
    let mut c = Content::from_string("ab");
    c.cursor_right();
    c.insert('x');
    assert_eq!(c.get_string(), "axb");
    assert_eq!(c.cursor_pos(), ((0, 2), (0, 2)));
    c.insert(' ');
    assert_eq!(c.get_string(), "ax b");
    c.insert('\n');
    assert_eq!(c.get_string(), "ax \nb");
    assert_eq!(c.cursor_pos(), ((1, 0), (1, 0)));
    c.insert('y');
    assert_eq!(c.get_string(), "ax \nyb");
}

#[test]
fn insert_splits_typed_whitespace() {
    let mut c = Content::from_string("a  b");
    c.cursor_right();
    c.cursor_right();
    c.insert('z');
    assert_eq!(c.get_string(), "a z b");
    assert_eq!(c.cursor_pos(), ((0, 3), (0, 3)));
}

#[test]
fn backspace_across_a_token() {
    let mut c = Content::from_string("ab c");
    c.cursor_right();
    c.cursor_right();
    c.backspace();
    assert_eq!(c.get_string(), "a c");
    assert_eq!(c.cursor_pos(), ((0, 2), (0, 2)));
    let mut s = Content::from_string("ab");
    s.backspace();
    assert_eq!(s.get_string(), "ab");
}

#[test]
fn backspace_merges_virtual_counts() {
    let mut c = Content::from_strings("ab", "a\n b");
    c.cursor_right();
    c.cursor_right();
    c.cursor_right();
    c.backspace();
    assert_eq!(c.get_string(), "a\n ");
}

#[test]
fn delete_at_end_does_nothing() {
    let mut c = Content::from_string("a ");
    c.cursor_right();
    c.cursor_right();
    c.delete();
    assert_eq!(c.get_string(), "a ");
    c.cursor_left();
    c.delete();
    assert_eq!(c.get_string(), "a");
    c.delete();
    assert_eq!(c.get_string(), "a");
}

#[test]
fn clearing_virtual_whitespace() {
    let mut c = Content::from_strings("a5", "a\n  5");
    c.cursor_right();
    c.cursor_right();
    c.clear_virtual_whitespace();
    assert_eq!(c.get_string(), "a5");
    assert_eq!(c.cursor_pos(), ((0, 1), (0, 1)));
}

fn pretty(source: &str) -> String {
    prettyplease::unparse(&syn::parse_file(source).unwrap())
}

#[test]
fn applying_formatter_output_shows_it() {
    let typed = "fn f(){let x=1;}";
    let formatted = pretty(typed);
    assert_ne!(formatted, typed);
    let mut c = Content::from_string(typed);
    assert!(c.apply_formatted(&formatted));
    assert_eq!(c.get_string(), formatted);
    assert_eq!(c.typed_string(), typed);
    assert!(c.apply_formatted(&formatted));
    assert_eq!(c.get_string(), formatted);
}

#[test]
fn up_on_first_line_keeps_column() {
    let mut c = Content::from_string("abc");
    c.cursor_right();
    c.cursor_right();
    c.cursor_up();
    assert_eq!(c.cursor_pos(), ((0, 2), (0, 2)));
}

#[test]
fn applying_formatted_text_moves_sticky_position() {
    let mut c = Content::from_string("a5");
    c.cursor_right();
    c.cursor_right();
    assert_eq!(c.cursor_pos(), ((0, 2), (0, 2)));
    assert!(c.apply_formatted("a\n  5"));
    assert_eq!(c.get_string(), "a\n  5");
    assert_eq!(c.cursor_pos_2(), (((1, 3), (1, 3)), (1, 3)));
    c.cursor_left();
    assert_eq!(c.cursor_pos_2(), (((0, 1), (1, 2)), (1, 2)));
}

#[test]
fn whitespace_rendering_pads() {
    let ws = Whitespace {
        typed: vec![WhitespaceChar::Space, WhitespaceChar::Newline, WhitespaceChar::Space],
        virtual_newlines: 2,
        virtual_spaces: 4,
    };
    assert_eq!(ws.get_string(), " \n \n    ");
    let same_line = Whitespace {
        typed: vec![WhitespaceChar::Space],
        virtual_newlines: 0,
        virtual_spaces: 3,
    };
    assert_eq!(same_line.get_string(), "   ");
    let typed_wins = Whitespace {
        typed: vec![WhitespaceChar::Newline, WhitespaceChar::Newline],
        virtual_newlines: 1,
        virtual_spaces: 8,
    };
    assert_eq!(typed_wins.get_string(), "\n\n");
    assert!(WhitespaceChar::Newline.is_newline());
    assert!(!WhitespaceChar::Space.is_newline());
    assert_eq!(WhitespaceChar::Newline.get_string(), "\n");
}
