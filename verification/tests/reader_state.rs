use pulp_reader::apps::reader_state::{
    bookmark_record_file_for, bookmarks_file_for, cache_dir_for, cache_root,
    candidate_cache_dirs_for, decode_bookmark_jump, decode_bookmarks, decode_bookmarks_index,
    display_title, empty_bookmarks_payload, encode_bookmarks, encode_bookmarks_index,
    fingerprint_path, legacy_cache_dir_for, meta_file_for, normalized_path_key,
    progress_file_for, recent_record_file, state_root, theme_file_for, theme_idx_from_name,
    BookId, BookMetaRecord, BookmarkIndexRecord, BookmarkRecord, ReaderFormat,
    ReaderThemePreset, ReadingProgressRecord, RecentBookRecord, FINGERPRINT_KIND,
};

fn bookmark(id: &str, path: &str, chapter: u16, off: u32, label: &str) -> BookmarkRecord {
    BookmarkRecord {
        book_id: BookId(id.to_string()),
        source_path: path.to_string(),
        chapter,
        byte_offset: off,
        label: label.to_string(),
    }
}

#[test]
fn format_from_path_by_suffix() {
    assert_eq!(ReaderFormat::from_path("books/a.epub"), ReaderFormat::Epub);
    assert_eq!(ReaderFormat::from_path("notes.txt"), ReaderFormat::Txt);
    assert_eq!(ReaderFormat::from_path("a.EPUB"), ReaderFormat::Unknown);
    assert_eq!(ReaderFormat::from_path("epub"), ReaderFormat::Unknown);
    assert_eq!(ReaderFormat::from_path(".txt"), ReaderFormat::Txt);
    assert_eq!(ReaderFormat::from_path(""), ReaderFormat::Unknown);
    assert_eq!(ReaderFormat::from_path("ébook.epub"), ReaderFormat::Epub);
}

#[test]
fn format_names_roundtrip() {
    for f in [ReaderFormat::Txt, ReaderFormat::Epub, ReaderFormat::Unknown] {
        assert_eq!(ReaderFormat::parse(f.as_str()), f);
    }
    assert_eq!(ReaderFormat::Txt.as_str(), "txt");
    assert_eq!(ReaderFormat::Epub.as_str(), "epub");
    assert_eq!(ReaderFormat::Unknown.as_str(), "unknown");
    assert_eq!(ReaderFormat::parse("EPUB"), ReaderFormat::Unknown);
    assert_eq!(ReaderFormat::parse(""), ReaderFormat::Unknown);
}

#[test]
fn fingerprint_is_fnv1a_of_normalized_path() {
    assert_eq!(fingerprint_path("books/a.epub"), "bk-243b9f7f");
    assert_eq!(fingerprint_path("Books\\A.EPUB"), "bk-243b9f7f");
    assert_eq!(fingerprint_path(""), "bk-811c9dc5");
    assert_eq!(fingerprint_path("/books/Moby Dick.epub"), "bk-08982787");
    assert_eq!(BookId::from_path("books/a.epub").as_str(), "bk-243b9f7f");
}

#[test]
fn normalized_key_lowercases_and_uses_slashes() {
    assert_eq!(normalized_path_key("A\\B\\Ça.TXT"), "a/b/Ça.txt");
    assert_eq!(normalized_path_key(""), "");
}

#[test]
fn display_title_is_last_component() {
    assert_eq!(display_title("books/a.epub"), "a.epub");
    assert_eq!(display_title("a.epub"), "a.epub");
    assert_eq!(display_title("books/"), "books/");
    assert_eq!(display_title("/x/y/z.txt"), "z.txt");
    assert_eq!(display_title(""), "");
}

#[test]
fn bookmark_file_names_are_8_3() {
    let id = BookId("bk-8a79a61f".to_string());
    assert_eq!(bookmark_record_file_for(&id), "8A79A61F.BKM");
    assert_eq!(bookmark_record_file_for(&BookId("xyz".to_string())), "00000000.BKM");
    assert_eq!(bookmark_record_file_for(&BookId("bk-12".to_string())), "12000000.BKM");
    assert_eq!(
        bookmark_record_file_for(&BookId("abcdef0123456789".to_string())),
        "ABCDEF01.BKM"
    );
    assert_eq!(bookmark_record_file_for(&BookId("b-k-9z".to_string())), "B9000000.BKM");
    let from_path = BookId::from_path("books/a.epub");
    assert_eq!(bookmark_record_file_for(&from_path), "243B9F7F.BKM");
}

#[test]
fn storage_paths() {
    let id = BookId("bk-01234567".to_string());
    assert_eq!(state_root(), "state");
    assert_eq!(cache_root(), "cache");
    assert_eq!(recent_record_file(), "recent.txt");
    assert_eq!(cache_dir_for(&id), "cache/bk-01234567");
    assert_eq!(legacy_cache_dir_for(&id), "bk-01234567");
    assert_eq!(
        candidate_cache_dirs_for(&id),
        vec!["cache/bk-01234567".to_string(), "bk-01234567".to_string()]
    );
    assert_eq!(theme_file_for(&id), "cache/bk-01234567/theme.txt");
    assert_eq!(progress_file_for(&id), "cache/bk-01234567/progress.txt");
    assert_eq!(bookmarks_file_for(&id), "cache/bk-01234567/BMARKS.TXT");
    assert_eq!(meta_file_for(&id), "cache/bk-01234567/meta.txt");
    assert!(empty_bookmarks_payload().is_empty());
}

#[test]
fn recent_record_from_path_and_roundtrip() {
    let r = RecentBookRecord::from_path("books/a.epub");
    assert_eq!(r.book_id, BookId("bk-243b9f7f".to_string()));
    assert_eq!(r.source_path, "books/a.epub");
    assert_eq!(r.display_title, "a.epub");
    assert_eq!(r.format, ReaderFormat::Epub);
    assert_eq!((r.chapter, r.page, r.byte_offset), (0, 0, 0));
    let line = r.encode_line();
    assert_eq!(line, "bk-243b9f7f|books/a.epub|a.epub|epub|0|0|0");
    assert_eq!(RecentBookRecord::decode_line(&line), Some(r));
}

#[test]
fn recent_record_escapes_separators() {
    let r = RecentBookRecord {
        book_id: BookId("bk-1".to_string()),
        source_path: "a|b".to_string(),
        display_title: "x\ny\rz".to_string(),
        format: ReaderFormat::Txt,
        chapter: 65535,
        page: 4294967295,
        byte_offset: 7,
    };
    let line = r.encode_line();
    assert_eq!(line, "bk-1|a%7Cb|x%0Ay%0Dz|txt|65535|4294967295|7");
    assert_eq!(RecentBookRecord::decode_line(&line), Some(r));
}

#[test]
fn recent_record_rejects_bad_lines() {
    assert_eq!(RecentBookRecord::decode_line(""), None);
    assert_eq!(RecentBookRecord::decode_line("a|b|c|txt|1|2"), None);
    assert_eq!(RecentBookRecord::decode_line("a|b|c|txt|70000|2|3"), None);
    assert_eq!(RecentBookRecord::decode_line("a|b|c|txt|-1|2|3"), None);
    assert_eq!(RecentBookRecord::decode_line("a|b|c|txt|1|x|3"), None);
    assert_eq!(RecentBookRecord::decode_line("a|b|c|txt|1||3"), None);
    assert_eq!(RecentBookRecord::decode_line("a|b|c|txt|1|2|+"), None);
    let r = RecentBookRecord::decode_line("a|b|c|pdf|+1|002|3").unwrap();
    assert_eq!(r.format, ReaderFormat::Unknown);
    assert_eq!((r.chapter, r.page, r.byte_offset), (1, 2, 3));
}

#[test]
fn empty_first_field_drops_a_separator() {
    let r = RecentBookRecord {
        book_id: BookId(String::new()),
        source_path: "p".to_string(),
        display_title: "t".to_string(),
        format: ReaderFormat::Txt,
        chapter: 1,
        page: 2,
        byte_offset: 3,
    };
    assert_eq!(r.encode_line(), "p|t|txt|1|2|3");
    assert_eq!(RecentBookRecord::decode_line(&r.encode_line()), None);
}

#[test]
fn progress_record_roundtrip() {
    let r = ReadingProgressRecord::new("docs/notes.txt", 3, 40, 5000, 255);
    assert_eq!(r.book_id, BookId::from_path("docs/notes.txt"));
    assert_eq!(r.format, ReaderFormat::Txt);
    let line = r.encode_line();
    assert_eq!(line, format!("{}|docs/notes.txt|txt|3|40|5000|255", r.book_id.as_str()));
    assert_eq!(ReadingProgressRecord::decode_line(&line), Some(r));
}

#[test]
fn progress_font_index_keeps_low_byte() {
    let r = ReadingProgressRecord::decode_line("id|p|epub|1|2|3|300").unwrap();
    assert_eq!(r.font_size_idx, 44);
    assert_eq!(ReadingProgressRecord::decode_line("id|p|epub|1|2|3|70000"), None);
}

#[test]
fn meta_record_roundtrip() {
    let r = BookMetaRecord::from_path("Books/Story.EPUB");
    assert_eq!(r.fingerprint_kind, FINGERPRINT_KIND);
    assert_eq!(r.display_title, "Story.EPUB");
    assert_eq!(r.format, ReaderFormat::Unknown);
    let line = r.encode_line();
    assert_eq!(
        line,
        format!("{}|path-v2|Books/Story.EPUB|Story.EPUB|unknown", r.book_id.as_str())
    );
    assert_eq!(BookMetaRecord::decode_line(&line), Some(r));
    assert_eq!(BookMetaRecord::decode_line("a|b|c|d"), None);
    assert_eq!(BookMetaRecord::decode_line("a|b|c|d|e|f"), None);
}

#[test]
fn bookmark_record_roundtrip_and_position() {
    let b = bookmark("bk-1", "a.txt", 2, 99, "intro | part");
    let line = b.encode_line();
    assert_eq!(line, "bk-1|a.txt|2|99|intro %7C part");
    assert_eq!(BookmarkRecord::decode_line(&line), Some(b.clone()));
    assert!(b.same_position(2, 99));
    assert!(!b.same_position(2, 98));
    assert!(!b.same_position(1, 99));
}

#[test]
fn bookmark_display_labels() {
    assert_eq!(bookmark("i", "p", 0, 5, "  hello  ").display_label(), "hello");
    assert_eq!(bookmark("i", "p", 0, 5, "   ").display_label(), "Ch 1 @ 5");
    assert_eq!(bookmark("i", "p", 65535, 0, "").display_label(), "Ch 65536 @ 0");
}

#[test]
fn bookmark_lists_roundtrip() {
    let bs = vec![bookmark("bk-1", "a.txt", 1, 2, "one"), bookmark("bk-2", "b|c.txt", 3, 4, "two")];
    let payload = encode_bookmarks(&bs);
    assert_eq!(payload, "bk-1|a.txt|1|2|one\nbk-2|b%7Cc.txt|3|4|two");
    assert_eq!(decode_bookmarks(&payload), bs);
    assert_eq!(encode_bookmarks(&[]), "");
    assert_eq!(decode_bookmarks(""), vec![]);
}

#[test]
fn bookmark_list_decoding_skips_blank_and_bad_lines() {
    let payload = "\n  bk-1|a|1|2|x  \r\n\r\ngarbage\nbk-2|b|3|4|y\r\n";
    let got = decode_bookmarks(payload);
    assert_eq!(got, vec![bookmark("bk-1", "a", 1, 2, "x"), bookmark("bk-2", "b", 3, 4, "y")]);
}

#[test]
fn bookmark_index_roundtrip_and_labels() {
    let b = bookmark("bk-9", "dir/book.epub", 4, 123, "");
    let e = BookmarkIndexRecord::from_bookmark(&b, "My Book");
    assert_eq!(e.display_title, "My Book");
    assert_eq!(e.chapter, 4);
    let line = e.encode_line();
    assert_eq!(line, "bk-9|dir/book.epub|My Book|4|123|");
    assert_eq!(BookmarkIndexRecord::decode_line(&line), Some(e.clone()));
    assert_eq!(e.display_label(), "My Book · Ch 5 · Off 123");
    let untitled = BookmarkIndexRecord::from_bookmark(&bookmark("i", "dir/book.epub", 0, 1, " note "), " ");
    assert_eq!(untitled.display_label(), "book.epub · note");
    let extra = BookmarkIndexRecord::decode_line("a|b|c|1|2|d|extra").unwrap();
    assert_eq!(extra.label, "d");
    assert_eq!(BookmarkIndexRecord::decode_line("a|b|c|1|2"), None);
}

#[test]
fn bookmark_index_lists_roundtrip() {
    let es = vec![
        BookmarkIndexRecord::from_bookmark(&bookmark("bk-1", "a", 1, 2, "x"), "A"),
        BookmarkIndexRecord::from_bookmark(&bookmark("bk-2", "b", 3, 4, "y"), "B"),
    ];
    let payload = encode_bookmarks_index(&es);
    assert_eq!(payload, "bk-1|a|A|1|2|x\nbk-2|b|B|3|4|y");
    assert_eq!(decode_bookmarks_index(&payload), es);
    assert_eq!(decode_bookmarks_index(" \n\n"), vec![]);
}

#[test]
fn jump_messages_roundtrip() {
    let e = BookmarkIndexRecord::from_bookmark(&bookmark("bk-1", "x|y.txt", 7, 8, "l"), "T");
    let msg = e.jump_message();
    assert_eq!(msg, "BMJ|x%7Cy.txt|7|8");
    assert_eq!(decode_bookmark_jump(&msg), Some(("x|y.txt".to_string(), 7, 8)));
    assert_eq!(decode_bookmark_jump("BMX|a|1|2"), None);
    assert_eq!(decode_bookmark_jump("BMJ|a|1"), None);
    assert_eq!(decode_bookmark_jump("BMJ|a|1|b"), None);
}

#[test]
fn theme_names_ignore_ascii_case() {
    assert_eq!(theme_idx_from_name("Default"), 0);
    assert_eq!(theme_idx_from_name("CLASSIC"), 1);
    assert_eq!(theme_idx_from_name("serif"), 2);
    assert_eq!(theme_idx_from_name("serif "), 0);
    assert_eq!(theme_idx_from_name(""), 0);
}

#[test]
fn theme_preset_roundtrip() {
    let t = ReaderThemePreset::default();
    assert_eq!(t.font_size_idx, 4);
    assert_eq!(t.margin_px, 8);
    assert_eq!(t.line_spacing_pct, 100);
    assert_eq!(t.alignment, "justify");
    assert_eq!(t.theme_name, "default");
    let line = t.encode_line();
    assert_eq!(line, "4|8|100|justify|default");
    assert_eq!(ReaderThemePreset::decode_line(&line), Some(t));
    let wrapped = ReaderThemePreset::decode_line("260|9|356|left|Serif").unwrap();
    assert_eq!((wrapped.font_size_idx, wrapped.line_spacing_pct), (4, 100));
    assert_eq!(ReaderThemePreset::decode_line("1|70000|1|a|b"), None);
}

#[test]
fn bookmark_lists_with_empty_labels_roundtrip() {
    let bs = vec![bookmark("bk-1", "a.txt", 0, 0, ""), bookmark("bk-2", " b ", 1, 2, "x y")];
    assert_eq!(decode_bookmarks(&encode_bookmarks(&bs)), bs);
    let es = vec![BookmarkIndexRecord::from_bookmark(&bs[0], " "), BookmarkIndexRecord::from_bookmark(&bs[1], "T")];
    assert_eq!(decode_bookmarks_index(&encode_bookmarks_index(&es)), es);
    assert_eq!(bookmark("i", "p", 0, 0, " ").display_label(), "Ch 1 @ 0");
}

#[test]
fn bookmark_lists_with_escaped_line_breaks_at_the_ends_roundtrip() {
    let bs = vec![bookmark("\nbk-1", "a", 1, 2, "end\r"), bookmark("bk-2", "b", 3, 4, "x\n")];
    assert_eq!(decode_bookmarks(&encode_bookmarks(&bs)), bs);
    let es = vec![
        BookmarkIndexRecord::from_bookmark(&bs[0], "T"),
        BookmarkIndexRecord::from_bookmark(&bs[1], "U"),
    ];
    assert_eq!(decode_bookmarks_index(&encode_bookmarks_index(&es)), es);
}
