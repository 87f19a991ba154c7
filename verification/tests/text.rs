use rustoku::board::Board;
use rustoku::display::{digit_char, push_repeated};
use rustoku::sdk::{
    classify, parse_row, parse_sdk, read_char, split_lines, write_char, IngestError, Reading,
    BLANK,
};

const PUZZLE: &str = "53..7....\n6..195...\n.98....6.\n8...6...3\n4..8.3..1\n7...2...6\n.6....28.\n...419..5\n....8..79\n";

fn all_unset(board: &Board) -> bool {
    (0..9).all(|r| (0..9).all(|c| board.value_at(r, c) == 0 && board.candidates_at(r, c).len() == 9))
}

#[test]
fn split_lines_splits_at_line_feeds() {
    let parts = split_lines("ab\ncd\n");
    assert_eq!(parts, vec![vec!['a', 'b'], vec!['c', 'd'], vec![]]);
    assert_eq!(split_lines(""), vec![Vec::<char>::new()]);
    assert_eq!(split_lines("\n"), vec![Vec::<char>::new(), Vec::<char>::new()]);
    assert_eq!(split_lines("x"), vec![vec!['x']]);
    assert_eq!(split_lines("\n\nz"), vec![vec![], vec![], vec!['z']]);
}

#[test]
fn read_char_knows_digits_blanks_and_numbers() {
    assert_eq!(read_char('1'), Reading::Value(1));
    assert_eq!(read_char('5'), Reading::Value(5));
    assert_eq!(read_char('9'), Reading::Value(9));
    assert_eq!(read_char('0'), Reading::Garbled);
    assert_eq!(read_char(BLANK), Reading::Unset);
    assert_eq!(read_char('.'), Reading::Unset);
    assert_eq!(read_char(' '), Reading::Unset);
    assert_eq!(read_char('x'), Reading::Unset);
    assert_eq!(read_char('a'), Reading::Unset);
    assert_eq!(read_char('Z'), Reading::Unset);
    assert_eq!(read_char('-'), Reading::Unset);
    // numbers that are no digit of ours
    assert_eq!(read_char('\u{0663}'), Reading::Garbled);
    assert_eq!(read_char('\u{00BE}'), Reading::Garbled);
    assert_eq!(read_char('\u{2460}'), Reading::Garbled);
    // a letter beyond ASCII
    assert_eq!(read_char('\u{00E9}'), Reading::Unset);
}

#[test]
fn classify_decides_from_digit_and_number() {
    assert_eq!(classify('7', Some(7), true), Reading::Value(7));
    assert_eq!(classify('0', Some(0), true), Reading::Garbled);
    assert_eq!(classify('x', Some(33), false), Reading::Garbled);
    assert_eq!(classify('x', None, false), Reading::Unset);
    assert_eq!(classify('x', None, true), Reading::Garbled);
    // the blank is unset whatever is said of it
    assert_eq!(classify(BLANK, None, true), Reading::Unset);
    assert_eq!(classify(BLANK, None, false), Reading::Unset);
}

#[test]
fn write_char_writes_digits_and_the_blank() {
    assert_eq!(write_char(0), '.');
    assert_eq!(write_char(1), '1');
    assert_eq!(write_char(9), '9');
    assert_eq!(write_char(10), '.');
    for v in 1..=9 {
        assert_eq!(read_char(write_char(v)), Reading::Value(v));
    }
    assert_eq!(read_char(write_char(0)), Reading::Unset);
}

#[test]
fn parse_row_reads_nine_characters() {
    let line: Vec<char> = "53..7...9".chars().collect();
    assert_eq!(parse_row(&line), Ok(vec![5, 3, 0, 0, 7, 0, 0, 0, 9]));
    let short: Vec<char> = "53..7...".chars().collect();
    assert_eq!(parse_row(&short), Err(IngestError::LineLength));
    let long: Vec<char> = "53..7...91".chars().collect();
    assert_eq!(parse_row(&long), Err(IngestError::LineLength));
    let zero: Vec<char> = "53..7..09".chars().collect();
    assert_eq!(parse_row(&zero), Err(IngestError::BadDigit));
    let empty: Vec<char> = Vec::new();
    assert_eq!(parse_row(&empty), Err(IngestError::LineLength));
    // the length is looked at first
    let both: Vec<char> = "0".chars().collect();
    assert_eq!(parse_row(&both), Err(IngestError::LineLength));
}

#[test]
fn parse_sdk_reads_the_table() {
    let table = parse_sdk(PUZZLE).unwrap();
    assert_eq!(table.len(), 9);
    assert_eq!(table[0], vec![5, 3, 0, 0, 7, 0, 0, 0, 0]);
    assert_eq!(table[8], vec![0, 0, 0, 0, 8, 0, 0, 7, 9]);
}

#[test]
fn parse_sdk_does_not_look_for_conflicts() {
    let text = "55.......\n.........\n.........\n.........\n.........\n.........\n.........\n.........\n.........\n";
    assert_eq!(parse_sdk(text).map(|t| t[0].clone()), Ok(vec![5, 5, 0, 0, 0, 0, 0, 0, 0]));
}

#[test]
fn ingest_places_the_values() {
    let mut board = Board::default();
    assert_eq!(board.ingest_sdk_text(PUZZLE), Ok(()));
    assert_eq!(board.value_at(0, 0), 5);
    assert_eq!(board.value_at(0, 1), 3);
    assert_eq!(board.value_at(0, 2), 0);
    assert_eq!(board.value_at(8, 8), 9);
    assert_eq!(board.unsolved_count(), 51);
    // (0, 2) sees 5 3 7 in its row, 8 in its column, 6 9 8 in its block
    assert_eq!(board.candidates_at(0, 2), vec![1, 2, 4]);
}

#[test]
fn ingest_ignores_the_tenth_line() {
    let mut board = Board::default();
    let text = format!("{}this line 123 is not read", PUZZLE);
    assert_eq!(board.ingest_sdk_text(&text), Ok(()));
    assert_eq!(board.unsolved_count(), 51);
}

#[test]
fn ingest_reads_any_non_digit_as_unset() {
    let mut board = Board::default();
    let text = "1 x-_*#ab\n.........\n.........\n.........\n.........\n.........\n.........\n.........\n.........\n";
    assert_eq!(board.ingest_sdk_text(text), Ok(()));
    assert_eq!(board.unsolved_count(), 80);
    assert_eq!(board.value_at(0, 0), 1);
}

#[test]
fn ingest_with_nine_lines_fails_and_clears() {
    let mut board = Board::default();
    board.set_square(4, 4, 4).unwrap();
    let text = "53..7....\n6..195...\n.98....6.\n8...6...3\n4..8.3..1\n7...2...6\n.6....28.\n...419..5\n....8..79";
    assert_eq!(board.ingest_sdk_text(text), Err(IngestError::LineCount));
    assert!(all_unset(&board));
    assert_eq!(board.unsolved_count(), 81);
}

#[test]
fn ingest_with_eleven_lines_fails() {
    let mut board = Board::default();
    let text = format!("{}\n", PUZZLE);
    assert_eq!(board.ingest_sdk_text(&text), Err(IngestError::LineCount));
    assert!(all_unset(&board));
    assert_eq!(board.ingest_sdk_text(""), Err(IngestError::LineCount));
}

#[test]
fn ingest_with_a_short_row_fails_and_clears() {
    let mut board = Board::default();
    let text = "53..7....\n6..195..\n.98....6.\n8...6...3\n4..8.3..1\n7...2...6\n.6....28.\n...419..5\n....8..79\n";
    assert_eq!(board.ingest_sdk_text(text), Err(IngestError::LineLength));
    assert!(all_unset(&board));
}

#[test]
fn ingest_with_carriage_returns_fails() {
    let mut board = Board::default();
    let text = PUZZLE.replace('\n', "\r\n");
    assert_eq!(board.ingest_sdk_text(&text), Err(IngestError::LineLength));
    assert!(all_unset(&board));
}

#[test]
fn ingest_with_a_zero_fails_and_clears() {
    let mut board = Board::default();
    let text = PUZZLE.replace("....8..79", "0...8..79");
    assert_eq!(board.ingest_sdk_text(&text), Err(IngestError::BadDigit));
    assert!(all_unset(&board));
}

#[test]
fn ingest_with_a_foreign_number_fails_and_clears() {
    let mut board = Board::default();
    let text = PUZZLE.replace("....8..79", "\u{0663}...8..79");
    assert_eq!(board.ingest_sdk_text(&text), Err(IngestError::BadDigit));
    assert!(all_unset(&board));
}

#[test]
fn ingest_with_a_repeated_value_fails_and_clears() {
    let mut board = Board::default();
    // a second 5 in the first row
    let in_row = PUZZLE.replace("53..7....", "53..7...5");
    assert_eq!(board.ingest_sdk_text(&in_row), Err(IngestError::Conflict));
    assert!(all_unset(&board));
    // a second 6 in the first column
    let in_col = PUZZLE.replace("....8..79", "6...8..79");
    assert_eq!(board.ingest_sdk_text(&in_col), Err(IngestError::Conflict));
    assert!(all_unset(&board));
    // a second 9 in the first block
    let in_block = PUZZLE.replace("53..7....", "539.7....");
    assert_eq!(board.ingest_sdk_text(&in_block), Err(IngestError::Conflict));
    assert!(all_unset(&board));
}

#[test]
fn the_first_fault_in_reading_order_is_reported() {
    let mut board = Board::default();
    // a zero in row 0, a short row 1
    let text = "0........\n....\n.........\n.........\n.........\n.........\n.........\n.........\n.........\n";
    assert_eq!(board.ingest_sdk_text(text), Err(IngestError::BadDigit));
    // a short row 0, a zero in row 1
    let text = "....\n0........\n.........\n.........\n.........\n.........\n.........\n.........\n.........\n";
    assert_eq!(board.ingest_sdk_text(text), Err(IngestError::LineLength));
    // the count of lines comes before everything
    assert_eq!(board.ingest_sdk_text("0\n"), Err(IngestError::LineCount));
    // the faults of the text come before the conflicts
    let text = "55.......\n.........\n.........\n.........\n.........\n.........\n.........\n.........\n0........\n";
    assert_eq!(board.ingest_sdk_text(text), Err(IngestError::BadDigit));
}

#[test]
fn ingest_replaces_what_was_on_the_board() {
    let mut board = Board::default();
    board.set_square(0, 2, 1).unwrap();
    assert_eq!(board.ingest_sdk_text(PUZZLE), Ok(()));
    assert_eq!(board.value_at(0, 2), 0);
    assert_eq!(board.unsolved_count(), 51);
}

#[test]
fn fill_places_a_table() {
    let mut board = Board::default();
    let mut table = vec![vec![0u32; 9]; 9];
    table[0][0] = 7;
    table[8][8] = 7;
    assert_eq!(board.fill(&table), Ok(()));
    assert_eq!(board.unsolved_count(), 79);
    assert_eq!(board.candidates_at(0, 8), vec![1, 2, 3, 4, 5, 6, 8, 9]);
    table[0][8] = 7;
    assert_eq!(board.fill(&table), Err(IngestError::Conflict));
    assert!(all_unset(&board));
}

#[test]
fn generate_string_of_self_writes_ten_lines() {
    let mut board = Board::default();
    assert_eq!(
        board.generate_string_of_self(),
        ".........\n.........\n.........\n.........\n.........\n.........\n.........\n.........\n.........\n"
    );
    board.set_square(0, 0, 5).unwrap();
    board.set_square(8, 8, 9).unwrap();
    board.set_square(4, 3, 1).unwrap();
    assert_eq!(
        board.generate_string_of_self(),
        "5........\n.........\n.........\n.........\n...1.....\n.........\n.........\n.........\n........9\n"
    );
    assert_eq!(board.generate_string_of_self().split('\n').count(), 10);
}

#[test]
fn written_text_is_read_back_as_the_same_values() {
    let mut board = Board::default();
    assert_eq!(board.ingest_sdk_text(PUZZLE), Ok(()));
    let text = board.generate_string_of_self();
    assert_eq!(text, PUZZLE);
    let mut again = Board::default();
    assert_eq!(again.ingest_sdk_text(&text), Ok(()));
    for r in 0..9 {
        for c in 0..9 {
            assert_eq!(again.value_at(r, c), board.value_at(r, c));
            assert_eq!(again.candidates_at(r, c), board.candidates_at(r, c));
        }
    }
    assert_eq!(again.unsolved_count(), board.unsolved_count());
}

#[test]
fn reading_back_recomputes_the_candidates() {
    let mut board = Board::default();
    board.set_square(0, 0, 1).unwrap();
    // prune by hand what no value excludes
    board.col_iter_mut(5, 9);
    assert!(!board.candidates_at(4, 5).contains(&9));
    let text = board.generate_string_of_self();
    let mut again = Board::default();
    assert_eq!(again.ingest_sdk_text(&text), Ok(()));
    assert_eq!(again.value_at(0, 0), 1);
    assert!(again.candidates_at(4, 5).contains(&9));
    assert_eq!(again.candidates_at(0, 5), vec![2, 3, 4, 5, 6, 7, 8, 9]);
}

#[test]
fn grid_view_shows_values_in_brackets() {
    let mut board = Board::default();
    board.set_square(0, 0, 5).unwrap();
    board.set_square(4, 4, 3).unwrap();
    board.set_square(8, 8, 9).unwrap();
    let blank = "[ ][ ][ ] | [ ][ ][ ] | [ ][ ][ ]\n";
    let rule = "---------   ---------   ---------\n";
    let mut expected = String::new();
    expected.push_str("[5][ ][ ] | [ ][ ][ ] | [ ][ ][ ]\n");
    expected.push_str(blank);
    expected.push_str(blank);
    expected.push_str(rule);
    expected.push_str(blank);
    expected.push_str("[ ][ ][ ] | [ ][3][ ] | [ ][ ][ ]\n");
    expected.push_str(blank);
    expected.push_str(rule);
    expected.push_str(blank);
    expected.push_str(blank);
    expected.push_str("[ ][ ][ ] | [ ][ ][ ] | [ ][ ][9]\n");
    assert_eq!(board.grid_view(), expected);
}

#[test]
fn possibility_view_of_a_blank_board() {
    let board = Board::default();
    let double = format!("{}\n", "=".repeat(53));
    let single = format!("{}\n", "-".repeat(53));
    let mut expected = String::new();
    expected.push_str(&double);
    for row in 0..9 {
        expected.push_str("|| |123|123|123| || |123|123|123| || |123|123|123| ||\n");
        expected.push_str("|| |456|456|456| || |456|456|456| || |456|456|456| ||\n");
        expected.push_str("|| |789|789|789| || |789|789|789| || |789|789|789| ||\n");
        if row == 2 || row == 5 {
            expected.push_str(&double);
        } else {
            expected.push_str(&single);
        }
    }
    expected.push_str(&double);
    assert_eq!(board.possibility_view(), expected);
}

#[test]
fn possibility_view_shows_values_and_gaps() {
    let mut board = Board::default();
    board.set_square(0, 0, 5).unwrap();
    let view = board.possibility_view();
    let lines: Vec<&str> = view.split('\n').collect();
    assert_eq!(lines.len(), 39);
    assert_eq!(lines[1], "|| |555|123|123| || |123|123|123| || |123|123|123| ||");
    assert_eq!(lines[2], "|| |555|4 6|4 6| || |4 6|4 6|4 6| || |4 6|4 6|4 6| ||");
    assert_eq!(lines[3], "|| |555|789|789| || |789|789|789| || |789|789|789| ||");
    assert_eq!(lines[4], "-".repeat(53));
    assert_eq!(lines[6], "|| |4 6|4 6|4 6| || |456|456|456| || |456|456|456| ||");
    assert_eq!(lines[12], "=".repeat(53));
    assert_eq!(lines[14], "|| |4 6|456|456| || |456|456|456| || |456|456|456| ||");
    assert_eq!(lines[36], "-".repeat(53));
    assert_eq!(lines[37], "=".repeat(53));
    assert_eq!(lines[38], "");
}

#[test]
fn possibility_view_shows_a_cell_without_candidates_as_zeros() {
    let mut board = Board::default();
    for v in 1..=9 {
        board.col_iter_mut(0, v);
    }
    let view = board.possibility_view();
    let lines: Vec<&str> = view.split('\n').collect();
    assert_eq!(lines[1], "|| |000|123|123| || |123|123|123| || |123|123|123| ||");
}

#[test]
fn digit_char_and_push_repeated() {
    assert_eq!(digit_char(0), '0');
    assert_eq!(digit_char(7), '7');
    let mut text = String::from("a");
    push_repeated(&mut text, '-', 3);
    push_repeated(&mut text, '=', 0);
    assert_eq!(text, "a---");
}
