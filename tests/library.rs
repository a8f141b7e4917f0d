use tanoshi::model::{BackgroundColor, PageRendering, ReadingDirection, SettingParams, Theme};
use std::cmp::Ordering;
use tanoshi::scanner::{has_short_digit_runs, next_cover, CoverEntry, Scanner};

fn entry(name: &str, is_dir: bool) -> CoverEntry {
    CoverEntry { name: name.to_string(), is_dir }
}

#[test]
fn scanner_keeps_its_path() {
    let s = Scanner::new("/manga");
    assert_eq!(s.path, "/manga");
    assert_eq!(Scanner::default_cover_url(), "/images/cover-placeholder.jpg");
}

#[test]
fn supported_archives() {
    assert!(Scanner::is_supported_file("Volume 1.cbz"));
    assert!(Scanner::is_supported_file("Volume 1.CBR"));
    assert!(!Scanner::is_supported_file("Volume 1.zip"));
    assert!(!Scanner::is_supported_file(".cbz"));
    assert!(!Scanner::is_supported_file("cbz"));
}

#[test]
fn cover_comes_from_the_last_entry_in_human_order() {
    let entries = vec![
        entry("Vol 2", true),
        entry("Vol 10", true),
        entry("notes.txt", false),
        entry("Vol 9.cbz", false),
    ];
    // in plain text order "Vol 9.cbz" would come last; in human order 10 > 9
    assert_eq!(Scanner::find_cover_entry(&entries), Some(1));
    let none = vec![entry("readme.md", false)];
    assert_eq!(Scanner::find_cover_entry(&none), None);
    assert_eq!(Scanner::find_cover_entry(&vec![]), None);
}

#[test]
fn digit_runs() {
    assert!(has_short_digit_runs("chapter 123456789"));
    assert!(!has_short_digit_runs("chapter 1234567890"));
    assert!(has_short_digit_runs(""));
}

#[test]
fn settings_defaults() {
    let s = SettingParams::default();
    assert!(s.page_rendering == PageRendering::SinglePage);
    assert!(s.background_color == BackgroundColor::Black);
    assert!(s.reading_direction == ReadingDirection::LeftToRight);
    assert!(!s.dark_mode);
    assert!(Theme::default() == Theme::Auto);
    assert_eq!(Theme::Dark.to_string(), "dark");
    assert_eq!(Theme::Light.to_string(), "light");
    assert_eq!(Theme::Auto.to_string(), "");
}

#[test]
fn cover_step_follows_the_given_order() {
    assert_eq!(next_cover(None, 3, true, Ordering::Equal), Some(3));
    assert_eq!(next_cover(Some(1), 3, true, Ordering::Greater), Some(3));
    assert_eq!(next_cover(Some(1), 3, true, Ordering::Equal), Some(3));
    assert_eq!(next_cover(Some(1), 3, true, Ordering::Less), Some(1));
    assert_eq!(next_cover(Some(1), 3, false, Ordering::Greater), Some(1));
    assert_eq!(next_cover(None, 3, false, Ordering::Greater), None);
}

#[test]
fn first_page_in_human_order() {
    let names = vec!["page10.jpg".to_string(), "page2.jpg".to_string(), "page1.jpg".to_string()];
    assert_eq!(Scanner::first_entry(&names), Some(2));
    let names = vec!["b10.png".to_string(), "b9.png".to_string()];
    // plain text order would pick "b10.png"
    assert_eq!(Scanner::first_entry(&names), Some(1));
    assert_eq!(Scanner::first_entry(&vec![]), None);
}

#[test]
fn first_step_follows_the_given_order() {
    assert_eq!(tanoshi::scanner::next_first(None, 4, Ordering::Greater), Some(4));
    assert_eq!(tanoshi::scanner::next_first(Some(0), 4, Ordering::Less), Some(4));
    assert_eq!(tanoshi::scanner::next_first(Some(0), 4, Ordering::Equal), Some(0));
    assert_eq!(tanoshi::scanner::next_first(Some(0), 4, Ordering::Greater), Some(0));
}

#[test]
fn pages_are_the_files_of_a_chapter() {
    let entries = vec![entry("01.jpg", false), entry("extras", true), entry("02.jpg", false)];
    assert_eq!(Scanner::page_files(&entries), vec!["01.jpg".to_string(), "02.jpg".to_string()]);
    assert!(Scanner::page_files(&vec![entry("sub", true)]).is_empty());
}
