use reverse_life::grid::{Cell, Grid};
use reverse_life::guess::Guess;
use reverse_life::string::{hconcat, large_number};
use reverse_life::torus::SIZE;

#[test]
fn hconcat_sets_lines_side_by_side() {
    assert_eq!(hconcat("a\nb", "c\nd", " | "), "a | c\nb | d");
    assert_eq!(hconcat("one", "two", ""), "onetwo");
    assert_eq!(hconcat("ab\ncd\nef", "1\n2\n3", "   "), "ab   1\ncd   2\nef   3");
}

#[test]
fn hconcat_stops_with_the_shorter_text() {
    assert_eq!(hconcat("a\nb\nc", "x", "-"), "a-x");
    assert_eq!(hconcat("a", "x\ny\nz", "-"), "a-x");
    assert_eq!(hconcat("", "x\ny", "-"), "");
    assert_eq!(hconcat("a\nb", "", "-"), "");
}

#[test]
fn hconcat_reads_lines_as_the_standard_library_does() {
    assert_eq!(hconcat("a\nb\n", "c\nd", "+"), "a+c\nb+d");
    assert_eq!(hconcat("a\r\nb\r\n", "c\r\nd", "+"), "a+c\nb+d");
    assert_eq!(hconcat("a\n\nb", "1\n2\n3", "+"), "a+1\n+2\nb+3");
    assert_eq!(hconcat("\n", "x", "+"), "+x");
    assert_eq!(hconcat("a\r", "x", "+"), "a\r+x");
    assert_eq!(hconcat("a\r\r\n", "x", "+"), "a\r+x");
    for (left, right) in [("a\nb\r\n\r\nc\r", "1\n2\n3\n4\n"), ("\r\n\n\r", "é\nü\n█")] {
        let expected = left
            .lines()
            .zip(right.lines())
            .map(|(l, r)| format!("{l}__{r}"))
            .collect::<Vec<_>>()
            .join("\n");
        assert_eq!(hconcat(left, right, "__"), expected);
    }
}

#[test]
fn large_number_below_a_thousand() {
    assert_eq!(large_number(0), "0");
    assert_eq!(large_number(7), "7");
    assert_eq!(large_number(42), "42");
    assert_eq!(large_number(999), "999");
}

#[test]
fn large_number_in_thousands() {
    assert_eq!(large_number(1_000), "10 000");
    assert_eq!(large_number(12_345), "123 345");
    assert_eq!(large_number(100_007), "1000 007");
    assert_eq!(large_number(999_999), "9999 999");
}

#[test]
fn large_number_in_millions() {
    assert_eq!(large_number(1_000_000), "1.000 million");
    assert_eq!(large_number(1_234_567), "1.234 million");
    assert_eq!(large_number(20_050_999), "20.050 million");
    assert_eq!(large_number(999_999_999), "999.999 million");
}

#[test]
fn large_number_in_billions() {
    assert_eq!(large_number(1_000_000_000), "1.000 billion");
    assert_eq!(large_number(4_000_007_000), "4.000 billion");
    assert_eq!(large_number(12_345_678_901), "12.345 billion");
    assert_eq!(large_number(1_000_999_000_000), "1000.999 billion");
}

fn frame_of(rows: &[String]) -> String {
    let border = "─".repeat(2 * SIZE as usize);
    let column_numbers = (0..SIZE).map(|i| format!("{i:2}")).collect::<String>();
    let mut output = format!("    {column_numbers} \n   ┌{border}┐\n");
    for (y, row) in rows.iter().enumerate() {
        output += &format!("{y:2} │{row}│\n");
    }
    output += &format!("   └{border}┘");
    output
}

#[test]
fn empty_grid_renders_as_an_empty_frame() {
    let expected = "     0 1 2 3 4 5 6 7 8 91011 \n   ┌────────────────────────┐\n".to_string()
        + " 0 │                        │\n"
        + " 1 │                        │\n"
        + " 2 │                        │\n"
        + " 3 │                        │\n"
        + " 4 │                        │\n"
        + " 5 │                        │\n"
        + " 6 │                        │\n"
        + " 7 │                        │\n"
        + " 8 │                        │\n"
        + " 9 │                        │\n"
        + "10 │                        │\n"
        + "11 │                        │\n"
        + "   └────────────────────────┘";
    assert_eq!(Grid::default().render(), expected);
}

#[test]
fn grid_renders_living_cells_as_blocks() {
    let mut grid = Grid::default();
    grid.set(0, 0, Cell::one());
    grid.set(11, 0, Cell::one());
    grid.set(3, 7, Cell { value: 5 });
    grid.set(4, 7, Cell::neg_one());
    let mut rows = vec!["  ".repeat(12); 12];
    rows[0] = "██".to_string() + &"  ".repeat(10) + "██";
    rows[7] = "  ".repeat(3) + "████" + &"  ".repeat(7);
    assert_eq!(grid.render(), frame_of(&rows));
}

#[test]
fn guess_renders_three_states() {
    let next = Grid::default();
    let mut guess = Guess::default();
    assert_eq!(guess.render(), frame_of(&vec!["▒▒".repeat(12); 12]));
    guess.guess_alive(&next, 2, 1);
    guess.guess_dead(&next, 3, 1);
    let mut rows = vec!["▒▒".repeat(12); 12];
    rows[1] = "▒▒▒▒██  ".to_string() + &"▒▒".repeat(8);
    assert_eq!(guess.render(), frame_of(&rows));
}

#[test]
fn renderings_stand_side_by_side() {
    let joined = hconcat(&Guess::default().render(), &Grid::default().render(), "   ");
    let lines = joined.lines().collect::<Vec<_>>();
    assert_eq!(lines.len(), 15);
    assert_eq!(lines[0], "     0 1 2 3 4 5 6 7 8 91011         0 1 2 3 4 5 6 7 8 91011 ");
    assert_eq!(
        lines[2],
        " 0 │▒▒▒▒▒▒▒▒▒▒▒▒▒▒▒▒▒▒▒▒▒▒▒▒│    0 │                        │"
    );
}
