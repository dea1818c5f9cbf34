use dt_codec::book::parse_books;
use dt_codec::errors::DtError;
use dt_codec::model::{books_from_byte_data, books_to_byte_data, Book, Line, Page};

fn one_line_book(text: &str) -> Vec<Book> {
    vec![Book {
        id: 0,
        name: String::new(),
        pages: vec![Page {
            id: 0,
            image_x: None,
            image_y: None,
            image_id: None,
            lines: vec![Line { id: 0, text: text.to_string() }],
        }],
    }]
}

#[test]
fn encode_line_with_color_and_size_markers() {
    // "Hi<C:5>there<S:2>" must become the legacy bytes for "Hi", the color
    // directive 07 05, the bytes for "there", and the size directive 23 32 53.
    let books = one_line_book("Hi<C:5>there<S:2>");
    let bytes = books_to_byte_data(&books).unwrap();
    let expected: Vec<u8> = vec![
        0x04, 0x00, // name address: right after the 4-byte table
        0x05, 0x00, // content address: after the empty name and its terminator
        0x00, // empty name
        0x48, 0x69, // "Hi"
        0x07, 0x05, // color directive
        0x74, 0x68, 0x65, 0x72, 0x65, // "there"
        0x23, 0x32, 0x53, // size directive
        0x00, // end of book
    ];
    assert_eq!(bytes, expected);
}

#[test]
fn decode_image_directives() {
    // three pages: a bare image clear, a decimal image id, and none at all
    let blob: Vec<u8> = vec![
        0x04, 0x00, 0x05, 0x00, // table: name at 4, content at 5
        0x00, // empty name
        0x23, 0x46, // image clear
        0x02, 0x03, // end of page
        0x23, 0x31, 0x32, 0x46, // image id 12
        0x02, 0x03, // end of page
        0x41, // "A"
        0x00, // end of book
    ];
    let books = books_from_byte_data(&blob).unwrap();
    assert_eq!(books.len(), 1);
    let pages = &books[0].pages;
    assert_eq!(pages.len(), 3);
    assert_eq!(pages[0].image_id, Some(0xFFF));
    assert_eq!(pages[1].image_id, Some(12));
    assert_eq!(pages[2].image_id, None);
    assert_eq!(pages[0].image_x, None);
    assert_eq!(pages[2].lines[0].text, "A");
}

#[test]
fn decode_color_and_size_to_markers() {
    let blob: Vec<u8> = vec![
        0x04, 0x00, 0x05, 0x00, 0x00, // table and empty name
        0x48, 0x69, // "Hi"
        0x07, 0x05, // color 5
        0x74, // "t"
        0x23, 0x32, 0x53, // size '2'
        0x00,
    ];
    let books = books_from_byte_data(&blob).unwrap();
    assert_eq!(books[0].pages[0].lines[0].text, "Hi<C:5>t<S:2>");
}

#[test]
fn model_round_trip_through_bytes() {
    // decode(encode(model)) must reproduce the model exactly, including the
    // distinction between an absent image id and the explicit clear value
    let books = vec![
        Book {
            id: 0,
            name: "alpha".to_string(),
            pages: vec![
                Page {
                    id: 0,
                    image_x: Some(40),
                    image_y: Some(0),
                    image_id: Some(0xFFF),
                    lines: vec![
                        Line { id: 0, text: "first<C:3>line".to_string() },
                        Line { id: 1, text: "second<S:7>".to_string() },
                    ],
                },
                Page {
                    id: 1,
                    image_x: None,
                    image_y: None,
                    image_id: Some(12),
                    lines: vec![Line { id: 0, text: String::new() }],
                },
            ],
        },
        Book {
            id: 1,
            name: "beta".to_string(),
            pages: vec![Page {
                id: 0,
                image_x: None,
                image_y: None,
                image_id: None,
                lines: vec![Line { id: 0, text: "plain".to_string() }],
            }],
        },
    ];
    let bytes = books_to_byte_data(&books).unwrap();
    let back = books_from_byte_data(&bytes).unwrap();
    assert_eq!(back.len(), books.len());
    for (b1, b2) in books.iter().zip(back.iter()) {
        assert_eq!(b1.id, b2.id);
        assert_eq!(b1.name, b2.name);
        assert_eq!(b1.pages.len(), b2.pages.len());
        for (p1, p2) in b1.pages.iter().zip(b2.pages.iter()) {
            assert_eq!(p1.id, p2.id);
            assert_eq!(p1.image_x, p2.image_x);
            assert_eq!(p1.image_y, p2.image_y);
            assert_eq!(p1.image_id, p2.image_id);
            assert_eq!(p1.lines.len(), p2.lines.len());
            for (l1, l2) in p1.lines.iter().zip(p2.lines.iter()) {
                assert_eq!(l1.id, l2.id);
                assert_eq!(l1.text, l2.text);
            }
        }
    }
}

#[test]
fn reencoding_is_byte_identical() {
    let books = one_line_book("twice<C:1>over");
    let first = books_to_byte_data(&books).unwrap();
    let second = books_to_byte_data(&books).unwrap();
    assert_eq!(first, second);
}

#[test]
fn double_byte_text_survives_the_charset() {
    // the legacy charset maps this katakana to the two bytes 0x83 0x65; a
    // codec that handed bytes through unchanged would not produce it
    let books = one_line_book("\u{30C6}");
    let bytes = books_to_byte_data(&books).unwrap();
    assert_eq!(&bytes[5..7], &[0x83, 0x65]);
    let back = books_from_byte_data(&bytes).unwrap();
    assert_eq!(back[0].pages[0].lines[0].text, "\u{30C6}");
}

#[test]
fn book_name_decodes_through_the_charset() {
    let blob: Vec<u8> = vec![
        0x04, 0x00, 0x07, 0x00, // name at 4, content at 7
        0x83, 0x65, 0x00, // katakana name
        0x41, 0x00, // content "A", end of book
    ];
    let books = books_from_byte_data(&blob).unwrap();
    assert_eq!(books[0].name, "\u{30C6}");
    assert_eq!(books[0].pages[0].lines[0].text, "A");
}

#[test]
fn malformed_image_value_is_fatal() {
    // the directive value "A" is not a decimal number
    let blob: Vec<u8> = vec![0x04, 0x00, 0x05, 0x00, 0x00, 0x23, 0x41, 0x46, 0x00];
    let err = books_from_byte_data(&blob).unwrap_err();
    assert_eq!(err, DtError::MalformedDirective { at: 6 });
}

#[test]
fn truncated_color_directive_is_fatal() {
    // the color byte at the very end has no value byte to consume
    let blob: Vec<u8> = vec![0x04, 0x00, 0x05, 0x00, 0x00, 0x07];
    let err = books_from_byte_data(&blob).unwrap_err();
    assert_eq!(err, DtError::TruncatedInput);
}

#[test]
fn unterminated_formatting_scan_is_fatal() {
    // digits run to the end of the file without a terminator byte
    let blob: Vec<u8> = vec![0x04, 0x00, 0x05, 0x00, 0x00, 0x23, 0x31, 0x32];
    let err = books_from_byte_data(&blob).unwrap_err();
    assert_eq!(err, DtError::TruncatedInput);
}

#[test]
fn end_of_file_acts_as_end_of_book() {
    // content runs to the end of the blob with no end-of-book byte
    let blob: Vec<u8> = vec![0x04, 0x00, 0x05, 0x00, 0x00, 0x48, 0x69];
    let books = books_from_byte_data(&blob).unwrap();
    assert_eq!(books[0].pages[0].lines[0].text, "Hi");
}

#[test]
fn malformed_color_marker_fails_encoding() {
    let books = one_line_book("a<C:>b");
    let err = books_to_byte_data(&books).unwrap_err();
    assert_eq!(err, DtError::MalformedDirective { at: 1 });
}

#[test]
fn oversized_color_marker_fails_encoding() {
    let books = one_line_book("<C:999>");
    let err = books_to_byte_data(&books).unwrap_err();
    assert_eq!(err, DtError::MalformedDirective { at: 0 });
}

#[test]
fn size_marker_at_end_of_text_fails_encoding() {
    let books = one_line_book("x<S:");
    let err = books_to_byte_data(&books).unwrap_err();
    assert_eq!(err, DtError::MalformedDirective { at: 1 });
}

#[test]
fn image_fields_are_emitted_in_fixed_order() {
    let books = vec![Book {
        id: 0,
        name: String::new(),
        pages: vec![Page {
            id: 0,
            image_x: Some(7),
            image_y: Some(250),
            image_id: Some(3),
            lines: vec![Line { id: 0, text: String::new() }],
        }],
    }];
    let bytes = books_to_byte_data(&books).unwrap();
    let expected: Vec<u8> = vec![
        0x04, 0x00, 0x05, 0x00, 0x00, // table, empty name
        0x23, 0x37, 0x78, // x = 7
        0x23, 0x32, 0x35, 0x30, 0x79, // y = 250
        0x23, 0x33, 0x46, // image id = 3
        0x00,
    ];
    assert_eq!(bytes, expected);
}

#[test]
fn raw_parse_assigns_dense_positional_ids() {
    // two books, each pointing at its own name and content
    let blob: Vec<u8> = vec![
        0x08, 0x00, 0x09, 0x00, // book 0: name at 8, content at 9
        0x08, 0x00, 0x0B, 0x00, // book 1: same empty name, content at 11
        0x00, // shared empty name
        0x41, 0x00, // content "A"
        0x42, 0x00, // content "B"
    ];
    let raw = parse_books(&blob).unwrap();
    assert_eq!(raw.len(), 2);
    let books = books_from_byte_data(&blob).unwrap();
    assert_eq!(books[0].id, 0);
    assert_eq!(books[1].id, 1);
    assert_eq!(books[0].pages[0].lines[0].text, "A");
    assert_eq!(books[1].pages[0].lines[0].text, "B");
}

#[test]
fn largest_image_values_round_trip() {
    let books = vec![Book {
        id: 0,
        name: String::new(),
        pages: vec![Page {
            id: 0,
            image_x: Some(65535),
            image_y: Some(0),
            image_id: Some(65535),
            lines: vec![Line { id: 0, text: String::new() }],
        }],
    }];
    let bytes = books_to_byte_data(&books).unwrap();
    let back = books_from_byte_data(&bytes).unwrap();
    assert_eq!(back[0].pages[0].image_x, Some(65535));
    assert_eq!(back[0].pages[0].image_y, Some(0));
    assert_eq!(back[0].pages[0].image_id, Some(65535));
}

#[test]
fn color_value_bounds_round_trip() {
    let books = one_line_book("<C:0>mid<C:255>");
    let bytes = books_to_byte_data(&books).unwrap();
    let back = books_from_byte_data(&bytes).unwrap();
    assert_eq!(back[0].pages[0].lines[0].text, "<C:0>mid<C:255>");
}

#[test]
fn redundant_page_break_marker_is_ignored() {
    // a stray 0x03 outside a page break changes nothing
    let blob: Vec<u8> = vec![0x04, 0x00, 0x05, 0x00, 0x00, 0x41, 0x03, 0x42, 0x00];
    let books = books_from_byte_data(&blob).unwrap();
    assert_eq!(books[0].pages[0].lines[0].text, "AB");
}

#[test]
fn lines_split_on_end_of_line_byte() {
    let blob: Vec<u8> = vec![0x04, 0x00, 0x05, 0x00, 0x00, 0x41, 0x01, 0x42, 0x00];
    let books = books_from_byte_data(&blob).unwrap();
    let lines = &books[0].pages[0].lines;
    assert_eq!(lines.len(), 2);
    assert_eq!(lines[0].id, 0);
    assert_eq!(lines[0].text, "A");
    assert_eq!(lines[1].id, 1);
    assert_eq!(lines[1].text, "B");
}

#[test]
fn later_image_directive_wins() {
    // two x directives on one page: the second overwrites the first
    let blob: Vec<u8> = vec![
        0x04, 0x00, 0x05, 0x00, 0x00, 0x23, 0x31, 0x78, 0x23, 0x32, 0x78, 0x00,
    ];
    let books = books_from_byte_data(&blob).unwrap();
    assert_eq!(books[0].pages[0].image_x, Some(2));
}
