use contentline::{find_cut, fold, next_boundary, size, Cut, SinkError, LIMIT, LINE_BREAK};

#[test]
fn no_linebreak() {
    let content = "No line break today.";
    let mut line = String::with_capacity(size(content.len()));
    fold(&mut line, content).unwrap();

    assert_eq!(line, content);
}

#[test]
fn over_limit() {
    let content = "Content lines that have a fixed length over 75 bytes should be line folded with CRLF and whitespace.";
    let mut line = String::with_capacity(size(content.len()));
    fold(&mut line, content).unwrap();
    let expected = "Content lines that have a fixed length over 75 bytes should be line folded \r\n with CRLF and whitespace.";

    assert_eq!(line, expected);
}

#[test]
fn multibytes() {
    let content = "Content lines shouldn't be folded in the middle of a UTF-8 character! 老虎.";
    let mut line = String::with_capacity(size(content.len()));
    fold(&mut line, content).unwrap();
    let expected =
        "Content lines shouldn't be folded in the middle of a UTF-8 character! 老\r\n 虎.";

    assert_eq!(line, expected);
}

#[test]
fn multibytes_with_space() {
    let content =
        "Content lines shouldn't be folded in the middle of a UTF-8 character! 老 虎.";
    let mut line = String::with_capacity(size(content.len()));
    fold(&mut line, content).unwrap();
    let expected =
        "Content lines shouldn't be folded in the middle of a UTF-8 character! 老 \r\n 虎.";

    assert_eq!(line, expected);
}

#[test]
fn multi_lines() {
    let content = "The quick brown fox jumps over the lazy dog. The quick brown fox jumps over the lazy cog. The quick brown fox jumps over the lazy hog. The quick brown fox jumps over the lazy log. The quick brown fox jumps over the lazy dog. ";
    let mut line = String::with_capacity(size(content.len()));
    fold(&mut line, content).unwrap();
    let expected = "The quick brown fox jumps over the lazy dog. The quick brown fox jumps over\r\n  the lazy cog. The quick brown fox jumps over the lazy hog. The quick brow\r\n n fox jumps over the lazy log. The quick brown fox jumps over the lazy dog\r\n . ";

    assert_eq!(line, expected);
}

#[test]
fn sizes() {
    assert_eq!(12 + 0 * 3, size(12));
    assert_eq!(75 + 0 * 3, size(75));
    assert_eq!(76 + 1 * 3, size(76));

    assert_eq!(148 + 1 * 3, size(148));
    assert_eq!(149 + 1 * 3, size(149));
    assert_eq!(150 + 2 * 3, size(150));

    assert_eq!(222 + 2 * 3, size(222));
    assert_eq!(223 + 2 * 3, size(223));
    assert_eq!(224 + 3 * 3, size(224));

    assert_eq!(296 + 3 * 3, size(296));
    assert_eq!(297 + 3 * 3, size(297));
    assert_eq!(298 + 4 * 3, size(298));
}

fn folded(content: &str) -> String {
    let mut line = String::new();
    assert_eq!(fold(&mut line, content), Ok::<(), SinkError>(()));
    line
}

fn unfolded(line: &str) -> String {
    line.split("\r\n ").collect::<Vec<&str>>().concat()
}

#[test]
fn limit_is_seventy_five() {
    assert_eq!(LIMIT, 75);
}

#[test]
fn empty_line_writes_nothing() {
    assert_eq!(folded(""), "");
}

#[test]
fn fold_appends_to_what_the_writer_holds() {
    let mut line = String::from("BEGIN\r\n");
    fold(&mut line, "SUMMARY:short").unwrap();
    assert_eq!(line, "BEGIN\r\nSUMMARY:short");
}

#[test]
fn line_at_the_limit_is_unchanged() {
    let content = "x".repeat(75);
    assert_eq!(folded(&content), content);
}

#[test]
fn line_one_past_the_limit_breaks_once() {
    let content = "x".repeat(76);
    let expected = format!("{}\r\n x", "x".repeat(75));
    assert_eq!(folded(&content), expected);
}

#[test]
fn continuation_lines_hold_one_byte_less() {
    let content = "y".repeat(75 + 74 + 1);
    let expected = format!("{}\r\n {}\r\n y", "y".repeat(75), "y".repeat(74));
    assert_eq!(folded(&content), expected);
}

#[test]
fn physical_lines_stay_within_the_limit() {
    let content = "老虎 and more text, ".repeat(40);
    let line = folded(&content);
    for physical in line.split("\r\n") {
        assert!(physical.len() <= LIMIT);
    }
}

#[test]
fn breaks_fall_between_characters() {
    let content = "é老𝄞a".repeat(60);
    let line = folded(&content);
    let mut count = 0;
    for (i, segment) in line.split("\r\n ").enumerate() {
        if i > 0 {
            let first = segment.as_bytes()[0];
            assert!(first < 128 || first >= 192);
        }
        count += 1;
    }
    assert!(count > 1);
}

#[test]
fn stripping_the_breaks_gives_the_line_back() {
    let content = "DESCRIPTION:老虎 tiger 虎 ".repeat(30);
    assert_eq!(unfolded(&folded(&content)), content);
}

#[test]
fn size_matches_fold_on_ascii() {
    let mut len = 0;
    while len <= 400 {
        let content = "a".repeat(len);
        assert_eq!(folded(&content).len(), size(len));
        len += 1;
    }
}

#[test]
fn size_of_very_short_lines() {
    assert_eq!(size(0), 0);
    assert_eq!(size(1), 1);
    assert_eq!(size(2), 2);
}

#[test]
fn size_at_the_transitions() {
    assert_eq!(size(75), 75);
    assert_eq!(size(76), 79);
    assert_eq!(size(150), 156);
}

#[test]
fn fold_of_three_byte_characters_may_exceed_size() {
    let content = "老".repeat(74);
    assert_eq!(content.len(), 222);
    assert_eq!(folded(&content).len(), 231);
    assert_eq!(size(222), 228);
}

#[test]
fn boundary_of_a_line_that_fits() {
    assert_eq!(next_boundary("abc", 3), 3);
    assert_eq!(next_boundary("abc", 10), 3);
    assert_eq!(next_boundary("", 0), 0);
}

#[test]
fn boundary_at_the_limit() {
    assert_eq!(next_boundary("abcdef", 4), 4);
}

#[test]
fn boundary_moves_left_of_a_split_character() {
    assert_eq!(next_boundary("ab老cd", 3), 2);
    assert_eq!(next_boundary("ab老cd", 4), 2);
    assert_eq!(next_boundary("ab老cd", 5), 5);
}

#[test]
fn boundary_without_a_safe_cut_is_the_full_length() {
    assert_eq!(next_boundary("老虎", 1), 6);
    assert_eq!(next_boundary("老虎", 2), 6);
    assert_eq!(next_boundary("老虎", 3), 3);
    assert_eq!(next_boundary("abc", 0), 3);
}

#[test]
fn oversized_character_is_not_split() {
    assert_eq!(next_boundary("𝄞", 3), 4);
    assert_eq!(next_boundary("𝄞x", 3), 5);
}

#[test]
fn cut_of_a_line_that_fits() {
    assert_eq!(find_cut("", 0), Cut::Fits);
    assert_eq!(find_cut("abc", 3), Cut::Fits);
    assert_eq!(find_cut("abc", 75), Cut::Fits);
}

#[test]
fn cut_is_the_rightmost_character_start() {
    assert_eq!(find_cut("abcdef", 4), Cut::At(4));
    assert_eq!(find_cut("ab老cd", 4), Cut::At(2));
    assert_eq!(find_cut("老虎.", 5), Cut::At(3));
}

#[test]
fn cut_is_never_at_the_first_byte() {
    assert_eq!(find_cut("abc", 0), Cut::NoSafeCut);
    assert_eq!(find_cut("老虎", 2), Cut::NoSafeCut);
    assert_eq!(find_cut("𝄞𝄞", 3), Cut::NoSafeCut);
}

#[test]
fn fold_is_never_shorter_than_size() {
    let samples = ["é", "老", "𝄞", "a老", "ab𝄞é"];
    for sample in samples {
        let mut count = 0;
        while count <= 120 {
            let content = sample.repeat(count);
            assert!(folded(&content).len() >= size(content.len()));
            count += 7;
        }
    }
}

#[test]
fn segments_of_text_are_text() {
    let content = "𝄞老é".repeat(50);
    let line = folded(&content);
    let mut total = 0;
    for (i, segment) in line.split("\r\n ").enumerate() {
        let room = if i == 0 { LIMIT } else { LIMIT - 1 };
        assert!(segment.len() <= room);
        assert!(segment.len() + 3 >= room || total + segment.len() == content.len());
        total += segment.len();
    }
    assert_eq!(total, content.len());
}

#[test]
fn line_break_is_crlf_and_a_space() {
    assert_eq!(LINE_BREAK, "\r\n ");
    assert_eq!(LINE_BREAK.as_bytes(), [13u8, 10u8, 32u8]);
    let content = "z".repeat(80);
    let line = folded(&content);
    assert_eq!(&line[75..78], LINE_BREAK);
}
