use pixie::bundled::bundled_svg;
use pixie::emoji::{emoji_codepoint, is_regional_indicator, is_sequence_modifier, split_emojis};

#[test]
fn splits_zwj_sequence_as_one_emoji() {
    assert_eq!(split_emojis("👨‍👩‍👧‍👦"), vec!["👨‍👩‍👧‍👦"]);
}

#[test]
fn splits_flag_sequence_as_one_emoji() {
    assert_eq!(split_emojis("🇫🇷"), vec!["🇫🇷"]);
}

#[test]
fn builds_codepoint_names_for_sequences() {
    assert_eq!(emoji_codepoint("🇫🇷"), "1f1eb-1f1f7");
    assert_eq!(
        emoji_codepoint("👨‍👩‍👧‍👦"),
        "1f468-200d-1f469-200d-1f467-200d-1f466"
    );
}

#[test]
fn finds_bundled_svg_for_flag_sequence() {
    assert!(bundled_svg("🇫🇷").is_some());
}

#[test]
fn split_skips_whitespace_between_sequences() {
    assert_eq!(split_emojis(" 🦆  🎱 "), vec!["🦆", "🎱"]);
    assert_eq!(split_emojis(""), Vec::<String>::new());
    assert_eq!(split_emojis(" \t\n"), Vec::<String>::new());
}

#[test]
fn split_keeps_modifiers_with_their_base() {
    // thumbs up with skin tone, keycap one, heart with variation selector
    assert_eq!(split_emojis("👍🏽1️⃣❤️"), vec!["👍🏽", "1️⃣", "❤️"]);
}

#[test]
fn split_pairs_regional_indicators_two_at_a_time() {
    assert_eq!(split_emojis("🇫🇷🇩🇪🇮"), vec!["🇫🇷", "🇩🇪", "🇮"]);
}

#[test]
fn split_joiner_takes_the_next_character_even_whitespace() {
    assert_eq!(split_emojis("a\u{200D} b"), vec!["a\u{200D} ", "b"]);
    // a trailing joiner with nothing after it starts its own sequence
    assert_eq!(split_emojis("a\u{200D}"), vec!["a", "\u{200D}"]);
}

#[test]
fn codepoint_names_use_lowercase_hex_without_padding() {
    assert_eq!(emoji_codepoint("🦆"), "1f986");
    assert_eq!(emoji_codepoint("#"), "23");
    assert_eq!(emoji_codepoint("\u{0}"), "0");
    assert_eq!(emoji_codepoint(""), "");
}

#[test]
fn classifies_indicators_and_modifiers() {
    assert!(is_regional_indicator('\u{1F1E6}'));
    assert!(is_regional_indicator('\u{1F1FF}'));
    assert!(!is_regional_indicator('\u{1F200}'));
    assert!(is_sequence_modifier('\u{FE0F}'));
    assert!(is_sequence_modifier('\u{1F3FB}'));
    assert!(is_sequence_modifier('\u{E007F}'));
    assert!(!is_sequence_modifier('\u{200D}'));
}

#[test]
fn bundled_lookup_misses_unknown_sequences() {
    assert!(bundled_svg("🦆").is_none());
    assert!(bundled_svg("🇫🇷").unwrap().starts_with("<svg"));
}

#[test]
fn split_pieces_rejoin_and_resplit_whole() {
    let text = "🦆🎱👨‍👩‍👧‍👦🇫🇷👍🏽x";
    let pieces = split_emojis(text);
    assert_eq!(pieces.concat(), text);
    for p in &pieces {
        assert!(!p.is_empty());
        assert_eq!(split_emojis(p), vec![p.clone()]);
    }
}
