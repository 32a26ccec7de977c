use grouper::GroupError;
use grouper::clean;
use grouper::isqrt;
use grouper::captions::build_vocabulary;
use grouper::captions::parse_caption_line;
use grouper::captions::tokenize;
use grouper::captions::weight_micro;
use grouper::tags::parse_score;
use grouper::tags::parse_tag;
use grouper::tags::parse_tag_list;
use grouper::tags::normalize;
use grouper::tags::parse_tag_line;

#[test]
fn clean_removes_punctuation() {
    assert_eq!(clean("cat!"), "cat");
    assert_eq!(clean("a-b_1"), "ab1");
    assert_eq!(clean("--!!"), "");
    assert_eq!(clean("héllo"), "héllo");
}

#[test]
fn isqrt_exact_values() {
    assert_eq!(isqrt(0), 0);
    assert_eq!(isqrt(1), 1);
    assert_eq!(isqrt(3), 1);
    assert_eq!(isqrt(4), 2);
    assert_eq!(isqrt(680_000_000_000), 824_621);
    assert_eq!(isqrt(u64::MAX as u128 * u64::MAX as u128), u64::MAX);
}

#[test]
fn score_plain_and_fractional() {
    assert_eq!(parse_score("0.8"), Some(800_000));
    assert_eq!(parse_score("1"), Some(1_000_000));
    assert_eq!(parse_score("1."), Some(1_000_000));
    assert_eq!(parse_score(".5"), Some(500_000));
    assert_eq!(parse_score("-1.5"), Some(-1_500_000));
    assert_eq!(parse_score("-.25"), Some(-250_000));
    assert_eq!(parse_score("0.1234567"), Some(123_456));
}

#[test]
fn score_rejects_malformed() {
    assert_eq!(parse_score(""), None);
    assert_eq!(parse_score("-"), None);
    assert_eq!(parse_score("."), None);
    assert_eq!(parse_score("1.2.3"), None);
    assert_eq!(parse_score("1e3"), None);
    assert_eq!(parse_score("10000000"), None);
    assert_eq!(parse_score(" 1"), None);
}

#[test]
fn tag_well_formed() {
    let (name, score) = parse_tag("(cat:0.8)").unwrap();
    assert_eq!(name, "cat");
    assert_eq!(score, 800_000);
    let (name, score) = parse_tag("  (dog:-0.2)  ").unwrap();
    assert_eq!(name, "dog");
    assert_eq!(score, -200_000);
}

#[test]
fn tag_name_takes_everything_up_to_last_colon() {
    let (name, score) = parse_tag("(a:b:0.5)").unwrap();
    assert_eq!(name, "a:b");
    assert_eq!(score, 500_000);
}

#[test]
fn tag_rejects_malformed() {
    assert_eq!(parse_tag("cat:0.8"), None);
    assert_eq!(parse_tag("(cat)"), None);
    assert_eq!(parse_tag("(:0.8)"), None);
    assert_eq!(parse_tag("(cat:)"), None);
    assert_eq!(parse_tag("(cat:x)"), None);
    assert_eq!(parse_tag(""), None);
}

#[test]
fn tag_list_yields_raw_map() {
    let raw = parse_tag_list("(cat:0.8),(dog:0.2)");
    assert_eq!(raw, vec![("cat".to_string(), 800_000), ("dog".to_string(), 200_000)]);
}

#[test]
fn tag_list_last_occurrence_wins() {
    let raw = parse_tag_list("(cat:0.8),(dog:0.2),(cat:0.4)");
    assert_eq!(raw, vec![("cat".to_string(), 400_000), ("dog".to_string(), 200_000)]);
}

#[test]
fn tag_list_skips_malformed() {
    let raw = parse_tag_list("cat:0.8,(dog:0.2),,(bad");
    assert_eq!(raw, vec![("dog".to_string(), 200_000)]);
}

#[test]
fn normalization_gives_unit_vector() {
    let raw = parse_tag_list("(cat:0.8),(dog:0.2)");
    let unit = normalize(&raw).unwrap();
    assert_eq!(unit, vec![("cat".to_string(), 970_142), ("dog".to_string(), 242_535)]);
}

#[test]
fn normalization_drops_zero_vector() {
    assert_eq!(normalize(&vec![]), None);
    assert_eq!(normalize(&vec![("cat".to_string(), 0)]), None);
}

#[test]
fn tag_line_well_formed() {
    let line = "0\timg_1.png\t(cat:0.8),(dog:0.2)\tsafe";
    let (id, tags) = parse_tag_line(line).unwrap().unwrap();
    assert_eq!(id, "img_1.png");
    assert_eq!(tags, vec![("cat".to_string(), 970_142), ("dog".to_string(), 242_535)]);
}

#[test]
fn tag_line_wrong_field_count_is_error() {
    assert_eq!(parse_tag_line("only three\tfields\there"), Err(GroupError::MalformedLine));
    assert_eq!(parse_tag_line("a\tb\tc\td\te"), Err(GroupError::MalformedLine));
}

#[test]
fn tag_line_with_only_malformed_tag_drops_item() {
    let line = "0\timg_2.png\tcat:0.8\tsafe";
    assert_eq!(parse_tag_line(line), Ok(None));
}

#[test]
fn caption_line_fields() {
    let (id, caption) = parse_caption_line("x\timg.png\ta red cat").unwrap();
    assert_eq!(id, "img.png");
    assert_eq!(caption, "a red cat");
    let (id2, caption2) = parse_caption_line("x\timg.png\ta red cat\textra").unwrap();
    assert_eq!(id2, "img.png");
    assert_eq!(caption2, "a red cat");
    assert_eq!(parse_caption_line("x\timg.png"), Err(GroupError::MalformedLine));
}

#[test]
fn tokenize_dedups_and_cleans() {
    assert_eq!(tokenize("a red  red cat!"), vec!["a", "red", "cat"]);
    assert_eq!(tokenize("-- !!"), Vec::<String>::new());
    assert_eq!(tokenize(""), Vec::<String>::new());
}

#[test]
fn vocabulary_counts_documents() {
    let sets = vec![
        tokenize("a red cat"),
        tokenize("a red dog"),
        tokenize("a blue bird"),
    ];
    let vocab = build_vocabulary(&sets);
    let lookup = |name: &str| -> u64 {
        vocab.iter().find(|p| p.0 == name).map(|p| p.1).unwrap()
    };
    assert_eq!(vocab.len(), 6);
    assert_eq!(lookup("a"), 3);
    assert_eq!(lookup("red"), 2);
    assert_eq!(lookup("cat"), 1);
    assert_eq!(lookup("dog"), 1);
    assert_eq!(lookup("blue"), 1);
    assert_eq!(lookup("bird"), 1);
}

#[test]
fn rarity_weights_match_document_share() {
    assert_eq!(weight_micro(3, 3), 0);
    assert_eq!(weight_micro(2, 3), 333_333);
    assert_eq!(weight_micro(1, 3), 666_666);
    assert_eq!(weight_micro(0, 7), 1_000_000);
}

#[test]
fn error_descriptions_are_distinct() {
    let all = [
        GroupError::MalformedLine,
        GroupError::TooManyTags,
        GroupError::SelfDistance,
        GroupError::ClusterFailed,
        GroupError::NoProgress,
    ];
    for (i, a) in all.iter().enumerate() {
        assert!(!a.describe().is_empty());
        for b in all.iter().skip(i + 1) {
            assert_ne!(a.describe(), b.describe());
        }
    }
}
