use sdiff::format::{first_attempt, format_for_extension, next_attempt, FormatHint};

fn by_lower_case(extension: Option<&str>) -> FormatHint {
    match extension.map(|s| s.to_lowercase()).as_deref() {
        Some("json") => FormatHint::Json,
        Some("yaml") | Some("yml") => FormatHint::Yaml,
        Some("toml") => FormatHint::Toml,
        _ => FormatHint::Auto,
    }
}

#[test]
fn extensions_name_their_format() {
    assert_eq!(format_for_extension(Some("json")), FormatHint::Json);
    assert_eq!(format_for_extension(Some("JSON")), FormatHint::Json);
    assert_eq!(format_for_extension(Some("Json")), FormatHint::Json);
    assert_eq!(format_for_extension(Some("yaml")), FormatHint::Yaml);
    assert_eq!(format_for_extension(Some("YML")), FormatHint::Yaml);
    assert_eq!(format_for_extension(Some("toml")), FormatHint::Toml);
    assert_eq!(format_for_extension(Some("tOmL")), FormatHint::Toml);
    assert_eq!(format_for_extension(Some("txt")), FormatHint::Auto);
    assert_eq!(format_for_extension(Some("")), FormatHint::Auto);
    assert_eq!(format_for_extension(Some("jsonl")), FormatHint::Auto);
    assert_eq!(format_for_extension(Some("jso")), FormatHint::Auto);
    assert_eq!(format_for_extension(Some("j\u{0131}on")), FormatHint::Auto);
    assert_eq!(format_for_extension(None), FormatHint::Auto);
}

#[test]
fn extensions_are_matched_as_their_lower_case_is() {
    let letters: Vec<char> = "jsonyamltJSONYAMLT.\u{212A}\u{0130}\u{017F}\u{00C5}\u{212B}kK"
        .chars()
        .collect();
    let mut state: u64 = 17;
    let mut next = || {
        state = state.wrapping_mul(6364136223846793005).wrapping_add(1442695040888963407);
        (state >> 33) as usize
    };
    for _ in 0..20000 {
        let len = 3 + next() % 2;
        let s: String = (0..len).map(|_| letters[next() % letters.len()]).collect();
        assert_eq!(format_for_extension(Some(&s)), by_lower_case(Some(&s)), "{:?}", s);
    }
    for word in ["json", "yaml", "yml", "toml"] {
        for mask in 0..(1u32 << word.len()) {
            let s: String = word
                .chars()
                .enumerate()
                .map(|(i, c)| if mask & (1 << i) != 0 { c.to_ascii_uppercase() } else { c })
                .collect();
            assert_eq!(format_for_extension(Some(&s)), by_lower_case(Some(&s)), "{:?}", s);
            assert_ne!(format_for_extension(Some(&s)), FormatHint::Auto);
        }
    }
    // every character in the place of each letter of the four words
    for u in 0..=0x10FFFFu32 {
        if let Some(c) = char::from_u32(u) {
            if c.to_lowercase().eq(std::iter::once(c)) && !c.is_ascii() {
                continue;
            }
            for word in ["json", "yaml", "yml", "toml"] {
                for at in 0..word.len() {
                    let s: String = word
                        .chars()
                        .enumerate()
                        .map(|(i, w)| if i == at { c } else { w })
                        .collect();
                    assert_eq!(format_for_extension(Some(&s)), by_lower_case(Some(&s)), "{:?}", s);
                }
            }
        }
    }
}

#[test]
fn formats_are_tried_in_a_fixed_order() {
    assert_eq!(first_attempt(), FormatHint::Json);
    assert_eq!(next_attempt(FormatHint::Json), Some(FormatHint::Yaml));
    assert_eq!(next_attempt(FormatHint::Yaml), Some(FormatHint::Toml));
    assert_eq!(next_attempt(FormatHint::Toml), None);
    assert_eq!(next_attempt(FormatHint::Auto), None);
}
