use md_ulb_pwrap::ulb_wrap_paragraph;

#[test]
fn wraps_plain_words() {
    assert_eq!(ulb_wrap_paragraph("aa bb cc", 2, 2), "aa\nbb\ncc");
    assert_eq!(ulb_wrap_paragraph("aaa bbb cc", 3, 3), "aaa\nbbb\ncc");
    assert_eq!(ulb_wrap_paragraph("aa bb cc", 5, 5), "aa bb\ncc");
}

#[test]
fn keeps_short_text_unchanged() {
    assert_eq!(ulb_wrap_paragraph("aa bb cc", 50, 50), "aa bb cc");
    assert_eq!(ulb_wrap_paragraph("hello", 80, 80), "hello");
}

#[test]
fn preserves_trailing_newlines() {
    assert_eq!(ulb_wrap_paragraph("aa bb cc\n\n\n", 2, 2), "aa\nbb\ncc\n\n\n");
    assert_eq!(ulb_wrap_paragraph("aa bb cc\n", 2, 2), "aa\nbb\ncc\n");
}

#[test]
fn preserves_leading_newlines() {
    assert_eq!(ulb_wrap_paragraph("\n\n\naa bb cc", 2, 2), "\n\n\naa\nbb\ncc");
    assert_eq!(
        ulb_wrap_paragraph("\n\n\naa bb cc\n\n\n", 2, 2),
        "\n\n\naa\nbb\ncc\n\n\n"
    );
}

#[test]
fn keeps_codespans_whole() {
    assert_eq!(ulb_wrap_paragraph("aaa `b` ccc", 3, 3), "aaa\n`b`\nccc");
    assert_eq!(ulb_wrap_paragraph("aaa ` ` ccc", 3, 3), "aaa\n` `\nccc");
}

#[test]
fn keeps_codespans_with_inner_backtick_runs_whole() {
    assert_eq!(
        ulb_wrap_paragraph("aaa ` ``  ``` a b c ` ccc", 3, 3),
        "aaa\n` ``  ``` a b c `\nccc"
    );
    assert_eq!(
        ulb_wrap_paragraph("aaa ``` ``  ` a b c ``` ccc", 3, 3),
        "aaa\n``` ``  ` a b c ```\nccc"
    );
}

#[test]
fn unterminated_codespan_still_wraps() {
    assert_eq!(
        ulb_wrap_paragraph("aaa ` b c ` `ddd e", 3, 3),
        "aaa\n` b c `\n`ddd e"
    );
}

#[test]
fn keeps_existing_newlines() {
    assert_eq!(
        ulb_wrap_paragraph("aaa ` b c ` `ddd\ne", 3, 3),
        "aaa\n` b c `\n`ddd\ne"
    );
    assert_eq!(ulb_wrap_paragraph("aa]\nbb\n[cc", 1, 1), "aa]\nbb\n[cc");
}

#[test]
fn does_not_break_adjacent_to_emphasis() {
    assert_eq!(ulb_wrap_paragraph("a **hola**", 2, 2), "a\n**hola**");
    assert_eq!(ulb_wrap_paragraph("a __hola__", 2, 2), "a\n__hola__");
    assert_eq!(ulb_wrap_paragraph("a *hola*", 2, 2), "a\n*hola*");
    assert_eq!(ulb_wrap_paragraph("a _hola_", 2, 2), "a\n_hola_");
}

#[test]
fn wraps_inside_emphasis_spans() {
    assert_eq!(ulb_wrap_paragraph("**hello hello**", 4, 4), "**hello\nhello**");
    assert_eq!(ulb_wrap_paragraph("*hello hello*", 4, 4), "*hello\nhello*");
}

#[test]
fn protects_inline_image_links() {
    assert_eq!(
        ulb_wrap_paragraph("aa ![img alt](img-url)", 1, 1),
        "aa ![img\nalt](img-url)"
    );
    assert_eq!(
        ulb_wrap_paragraph("aa![img alt](img-url 'Tit le')", 1, 1),
        "aa![img\nalt](img-url\n'Tit\nle')"
    );
}

#[test]
fn protects_inline_links() {
    assert_eq!(
        ulb_wrap_paragraph("aa [link text](link-url)", 1, 1),
        "aa\n[link\ntext](link-url)"
    );
    assert_eq!(
        ulb_wrap_paragraph("aa[link text](link-url 'Tit le')", 1, 1),
        "aa[link\ntext](link-url\n'Tit\nle')"
    );
}

#[test]
fn protects_reference_links() {
    assert_eq!(
        ulb_wrap_paragraph("aa ![image alt][link-label]", 1, 1),
        "aa ![image\nalt][link-label]"
    );
    assert_eq!(
        ulb_wrap_paragraph("aa![image alt][link-label]", 1, 1),
        "aa![image\nalt][link-label]"
    );
    assert_eq!(
        ulb_wrap_paragraph("aa [link text][link-label]", 1, 1),
        "aa\n[link\ntext][link-label]"
    );
    assert_eq!(
        ulb_wrap_paragraph("aa[link text][link-label]", 1, 1),
        "aa[link\ntext][link-label]"
    );
}

#[test]
fn wraps_link_destination_with_escaped_space() {
    assert_eq!(
        ulb_wrap_paragraph("[link text](link\\ destination 'link title')", 4, 4),
        "[link\ntext](link\\\ndestination\n'link\ntitle')"
    );
}

#[test]
fn keeps_hard_line_breaks() {
    assert_eq!(
        ulb_wrap_paragraph("hard  \nline break", 1, 1),
        "hard  \nline\nbreak"
    );
    assert_eq!(
        ulb_wrap_paragraph("hard\\\nline break", 1, 1),
        "hard\\\nline\nbreak"
    );
    assert_eq!(
        ulb_wrap_paragraph("hard          \nline break", 1, 1),
        "hard          \nline\nbreak"
    );
    assert_eq!(
        ulb_wrap_paragraph("hard\\          \nline break", 1, 1),
        "hard\\          \nline\nbreak"
    );
}

#[test]
fn degenerate_inputs() {
    assert_eq!(ulb_wrap_paragraph(" ", 1, 1), "");
    assert_eq!(ulb_wrap_paragraph("", 1, 1), "");
    assert_eq!(ulb_wrap_paragraph("\n", 1, 1), "\n");
}

#[test]
fn zero_width_takes_every_opportunity() {
    assert_eq!(ulb_wrap_paragraph("\na b c d e\n", 0, 0), "\na\nb\nc\nd\ne\n");
}

#[test]
fn first_line_width_applies_to_first_line_only() {
    assert_eq!(ulb_wrap_paragraph("aa b cc dd", 2, 4), "aa b\ncc\ndd");
    assert_eq!(ulb_wrap_paragraph("aa b cc dd ee", 2, 7), "aa b cc\ndd\nee");
    assert_eq!(ulb_wrap_paragraph("aa b cc dd ee", 2, 8), "aa b cc\ndd\nee");
    assert_eq!(ulb_wrap_paragraph("aa b cc dd ee", 2, 10), "aa b cc dd\nee");
    assert_eq!(ulb_wrap_paragraph("aa b cc dd ee", 4, 7), "aa b cc\ndd\nee");
}

#[test]
fn positions_are_counted_in_characters_not_bytes() {
    assert_eq!(ulb_wrap_paragraph("áá bb", 2, 2), "áá\nbb");
    assert_eq!(ulb_wrap_paragraph("ááá ééé íí", 3, 3), "ááá\nééé\níí");
    assert_eq!(ulb_wrap_paragraph("日 本 語", 1, 1), "日\n本\n語");
}

#[test]
fn oversized_token_stays_on_its_own_line() {
    assert_eq!(
        ulb_wrap_paragraph("a verylongtoken b", 3, 3),
        "a\nverylongtoken\nb"
    );
}

#[test]
fn wrap_over_explicit_break_list() {
    // The same paragraph wrapped through the verified core directly, with the
    // break list written out by hand in character units: an allowed break
    // after each space (indexing the space itself) and a mandatory one at the
    // final character.
    let text: Vec<char> = "aa bb cc".chars().collect();
    let breaks: Vec<(usize, bool)> = vec![(2, false), (5, false), (7, true)];
    let wrapped = md_ulb_pwrap::sequencer::wrap_paragraph_chars(&text, &breaks, 2, 2);
    let out: String = wrapped.iter().collect();
    assert_eq!(out, "aa\nbb\ncc");
}

#[test]
fn decider_forbids_breaks_inside_codespans() {
    let text: Vec<char> = "aaa `b` ccc".chars().collect();
    // At the space before the span (index 3) a break is permitted.
    assert!(md_ulb_pwrap::decider::possible_linebreak_must_wrap(&text, 0, 3));
    // Between the backticks (index 5, inside the span) it is not.
    assert!(!md_ulb_pwrap::decider::possible_linebreak_must_wrap(
        &text, 0, 5
    ));
    // At the space right after the closing backtick (index 7) the closing
    // run resolves, so the break is permitted.
    assert!(md_ulb_pwrap::decider::possible_linebreak_must_wrap(&text, 0, 7));
}

#[test]
fn decider_forbids_breaks_at_link_syntax() {
    // A break whose line would end with the hyphen of "link-url" is
    // forbidden: the candidate indexes the hyphen itself.
    let hyphen: Vec<char> = "link-url".chars().collect();
    assert!(!md_ulb_pwrap::decider::possible_linebreak_must_wrap(
        &hyphen, 0, 4
    ));
    // A break at the `!` of an image opener `![` is forbidden.
    let image: Vec<char> = "aa![img".chars().collect();
    assert!(!md_ulb_pwrap::decider::possible_linebreak_must_wrap(
        &image, 0, 2
    ));
    // A break at the `]` of a link closer `](` or `][` is forbidden.
    let link: Vec<char> = "text](url".chars().collect();
    assert!(!md_ulb_pwrap::decider::possible_linebreak_must_wrap(
        &link, 0, 4
    ));
    let reference: Vec<char> = "text][label".chars().collect();
    assert!(!md_ulb_pwrap::decider::possible_linebreak_must_wrap(
        &reference, 0, 4
    ));
    // An ordinary space carries no exclusion.
    let plain: Vec<char> = "aa bb".chars().collect();
    assert!(md_ulb_pwrap::decider::possible_linebreak_must_wrap(
        &plain, 0, 2
    ));
}

#[test]
fn discoverer_picks_furthest_fitting_break() {
    let text: Vec<char> = "aa bb cc dd".chars().collect();
    let breaks: Vec<(usize, bool)> = vec![(2, false), (5, false), (8, false), (10, true)];
    // Width 7 from last break 0: the furthest fitting opportunity is 5.
    assert_eq!(
        md_ulb_pwrap::discover::discover_next_linebreak_index(&text, &breaks, 0, 0, 7),
        5
    );
    // Width 1: nothing fits, the first permitted opportunity is taken.
    assert_eq!(
        md_ulb_pwrap::discover::discover_next_linebreak_index(&text, &breaks, 0, 0, 1),
        2
    );
    // A mandatory break within the width ends the scan.
    assert_eq!(
        md_ulb_pwrap::discover::discover_next_linebreak_index(&text, &breaks, 0, 0, 10),
        10
    );
}

#[test]
fn converts_byte_offsets_to_character_indices() {
    // "áá bb": the break after the space lies at byte 5 but character 3, so
    // the converted position indexes the space at character 2.
    let text: Vec<char> = "áá bb".chars().collect();
    let raw: Vec<(usize, bool)> = vec![(5, false), (7, true)];
    let converted = md_ulb_pwrap::convert::convert_breaks(&text, &raw);
    assert_eq!(converted, vec![(2, false), (4, true)]);
}
