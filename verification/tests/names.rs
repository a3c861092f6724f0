use parallax::entry::{sort_entries, Entry};
use parallax::file_name::{is_png_path, parse_numeric_groups};
use parallax::mode::ParallaxMode;
use parallax::select::select;

fn listing(names: &[&str]) -> Vec<Option<String>> {
    names.iter().map(|name| Some(name.to_string())).collect()
}

fn entry(row: u32, col: u32, index: usize) -> Entry {
    Entry { row, col, index }
}

#[test]
fn png_extension_in_any_case() {
    assert!(is_png_path("a.png"));
    assert!(is_png_path("a.PNG"));
    assert!(is_png_path("a.pNg"));
    assert!(is_png_path("a.b.png"));
    assert!(is_png_path("..png"));
}

#[test]
fn other_names_are_not_png() {
    assert!(!is_png_path(""));
    assert!(!is_png_path("png"));
    assert!(!is_png_path(".png"));
    assert!(!is_png_path("a.pn"));
    assert!(!is_png_path("a.pngx"));
    assert!(!is_png_path("a.png."));
    assert!(!is_png_path("a.png.jpg"));
    assert!(!is_png_path("a.p\u{4e}\u{47}e"));
    assert!(!is_png_path("a.pn\u{261}"));
}

#[test]
fn names_are_split_as_paths_are() {
    let names = [
        "a.png", ".png", "..png", "a.", "a", ".", "..", "...", "a.b.c", ".a.b", "\u{e9}1.png",
        "12.34.png", "x7", ".7", "7.", "a..7", "1.PNG", "9.png.9",
    ];
    for name in names {
        let path = std::path::Path::new(name);
        let png = path
            .extension()
            .and_then(|ext| ext.to_str())
            .is_some_and(|ext| ext.eq_ignore_ascii_case("png"));
        assert_eq!(is_png_path(name), png, "{}", name);
        let stem = path.file_stem().and_then(|stem| stem.to_str()).unwrap_or("");
        let groups: Vec<u32> = stem
            .split(|c: char| !c.is_ascii_digit())
            .filter_map(|digits| digits.parse::<u32>().ok())
            .collect();
        assert_eq!(parse_numeric_groups(name), groups, "{}", name);
    }
}

#[test]
fn numbers_of_a_stem() {
    assert_eq!(parse_numeric_groups("img_012_034.png"), vec![12, 34]);
    assert_eq!(parse_numeric_groups("7.png"), vec![7]);
    assert_eq!(parse_numeric_groups("a1b22c.png9"), vec![1, 22]);
    assert_eq!(parse_numeric_groups("none.png"), Vec::<u32>::new());
    assert_eq!(parse_numeric_groups(""), Vec::<u32>::new());
    assert_eq!(parse_numeric_groups("000.png"), vec![0]);
    assert_eq!(parse_numeric_groups("-5.png"), vec![5]);
    assert_eq!(parse_numeric_groups("\u{664}3.png"), vec![3]);
}

#[test]
fn numbers_beyond_u32_are_left_out() {
    assert_eq!(parse_numeric_groups("4294967295_1.png"), vec![4294967295, 1]);
    assert_eq!(parse_numeric_groups("4294967296_1.png"), vec![1]);
    assert_eq!(parse_numeric_groups("1_99999999999999999999999999.png"), vec![1]);
    assert_eq!(parse_numeric_groups("0000000000004294967295.png"), vec![4294967295]);
}

#[test]
fn separated_numbers_are_read_independently() {
    let left = parse_numeric_groups("a12b3");
    let right = parse_numeric_groups("45c6");
    let both = parse_numeric_groups("a12b3-45c6");
    assert_eq!(both, [left, right].concat());
}

#[test]
fn mode_codes() {
    assert_eq!(ParallaxMode::Half.as_u32(), 0);
    assert_eq!(ParallaxMode::Full.as_u32(), 1);
}

#[test]
fn half_parallax_selection_uses_the_last_number() {
    let names = listing(&["b_2_9.png", "notes.txt", "plain.png", "a_10.PNG", "7.jpg"]);
    assert_eq!(select(ParallaxMode::Half, &names), vec![entry(0, 9, 0), entry(0, 10, 3)]);
}

#[test]
fn full_parallax_selection_halves_odd_numbers() {
    let names = listing(&[
        "x_003_005.png",
        "x_002_005.png",
        "x_003_004.png",
        "7.png",
        "9_1_1.png",
        "4294967295_4294967295.png",
    ]);
    assert_eq!(
        select(ParallaxMode::Full, &names),
        vec![entry(2, 1, 0), entry(0, 0, 4), entry(2147483647, 2147483647, 5)]
    );
}

#[test]
fn unreadable_names_are_not_selected() {
    let names = vec![None, Some("3_3.png".to_string()), None];
    assert_eq!(select(ParallaxMode::Half, &names), vec![entry(0, 3, 1)]);
    assert_eq!(select(ParallaxMode::Full, &names), vec![entry(1, 1, 1)]);
}

#[test]
fn entries_are_sorted_by_row_column_and_listing() {
    let entries = vec![
        entry(1, 0, 0),
        entry(0, 5, 1),
        entry(0, 2, 2),
        entry(1, 0, 3),
        entry(0, 2, 4),
        entry(0, 0, 5),
        entry(1, 0, 6),
    ];
    assert_eq!(
        sort_entries(&entries),
        vec![
            entry(0, 0, 5),
            entry(0, 2, 2),
            entry(0, 2, 4),
            entry(0, 5, 1),
            entry(1, 0, 0),
            entry(1, 0, 3),
            entry(1, 0, 6),
        ]
    );
    assert_eq!(sort_entries(&Vec::new()), Vec::new());
}

#[test]
fn sorting_many_entries_agrees_with_the_standard_sort() {
    let mut entries = Vec::new();
    let mut x: u32 = 12345;
    for index in 0..1000 {
        x = x.wrapping_mul(1664525).wrapping_add(1013904223);
        entries.push(entry((x >> 16) % 7, (x >> 8) % 11, index));
    }
    let mut expected = entries.clone();
    expected.sort_by_key(|e| (e.row, e.col));
    assert_eq!(sort_entries(&entries), expected);
}
