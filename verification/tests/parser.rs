use ramus_core::block::Block;
use ramus_core::error::CoreError;
use ramus_core::parser::{parse, render};

fn sample_blocks() -> Vec<Block> {
    vec![
        Block {
            content: "Riunione con il cliente".to_string(),
            children: vec![
                Block::new("Deciso di rimandare il rilascio"),
                Block::new("Da verificare: capacità del team a ottobre"),
            ],
        },
        Block::new("Nota personale"),
    ]
}

#[test]
fn render_matches_spec_example() {
    let expected = "- Riunione con il cliente\n\
                     \x20\x20- Deciso di rimandare il rilascio\n\
                     \x20\x20- Da verificare: capacità del team a ottobre\n\
                     - Nota personale\n";
    assert_eq!(render(&sample_blocks()), expected);
}

#[test]
fn round_trip_parse_render() {
    let blocks = sample_blocks();
    let text = render(&blocks);
    assert_eq!(parse(&text).unwrap(), blocks);
}

#[test]
fn round_trip_render_parse_is_identity_on_conformant_text() {
    let text = "- a\n  - b\n    - c\n  - d\n- e\n";
    assert_eq!(render(&parse(text).unwrap()), text);
}

#[test]
fn empty_page_round_trips() {
    assert_eq!(parse("").unwrap(), Vec::<Block>::new());
    assert_eq!(render(&[]), "");
}

#[test]
fn single_empty_block_round_trips() {
    let blocks = vec![Block::new("")];
    let text = render(&blocks);
    assert_eq!(text, "- \n");
    assert_eq!(parse(&text).unwrap(), blocks);
}

#[test]
fn dash_without_trailing_space_is_empty_content() {
    assert_eq!(parse("-\n").unwrap(), vec![Block::new("")]);
}

#[test]
fn rejects_odd_indentation() {
    let err = parse(" - a\n").unwrap_err();
    assert!(matches!(err, CoreError::MalformedBlock { .. }));
}

#[test]
fn rejects_tab_indentation() {
    let err = parse("\t- a\n").unwrap_err();
    assert!(matches!(err, CoreError::MalformedBlock { .. }));
}

#[test]
fn rejects_first_block_indented() {
    let err = parse("  - a\n").unwrap_err();
    assert!(matches!(err, CoreError::MalformedBlock { .. }));
}

#[test]
fn rejects_indentation_jump() {
    let err = parse("- a\n    - b\n").unwrap_err();
    assert!(matches!(err, CoreError::MalformedBlock { .. }));
}

#[test]
fn rejects_line_without_dash() {
    let err = parse("just text\n").unwrap_err();
    assert!(matches!(err, CoreError::MalformedBlock { .. }));
}

#[test]
fn malformed_block_reports_the_line_number() {
    match parse("- a\nb\n") {
        Err(CoreError::MalformedBlock { line, .. }) => assert_eq!(line, 2),
        other => panic!("unexpected: {other:?}"),
    }
    match parse("- a\n- b\n    - c\n") {
        Err(CoreError::MalformedBlock { line, .. }) => assert_eq!(line, 0),
        other => panic!("unexpected: {other:?}"),
    }
}

#[test]
fn deep_nesting_round_trips() {
    let mut blocks = vec![Block::new("root")];
    let mut cursor = &mut blocks[0];
    for i in 0..20 {
        cursor.children.push(Block::new(&format!("level {i}")));
        cursor = cursor.children.last_mut().unwrap();
    }
    let text = render(&blocks);
    assert_eq!(parse(&text).unwrap(), blocks);
}

struct Lcg(u64);
impl Lcg {
    fn next(&mut self) -> u64 {
        self.0 = self.0.wrapping_mul(6364136223846793005).wrapping_add(1);
        self.0
    }
    fn range(&mut self, max: u64) -> u64 {
        self.next() % max.max(1)
    }
}

fn random_blocks(rng: &mut Lcg, depth: usize, count: usize) -> Vec<Block> {
    (0..count)
        .map(|i| {
            let words = rng.range(4) + 1;
            let content = (0..words)
                .map(|w| format!("w{}{}{}", depth, i, w))
                .collect::<Vec<_>>()
                .join(" ");
            let children = if depth < 4 && rng.range(3) == 0 {
                let child_count = (rng.range(3) + 1) as usize;
                random_blocks(rng, depth + 1, child_count)
            } else {
                Vec::new()
            };
            Block { content, children }
        })
        .collect()
}

#[test]
fn property_random_trees_round_trip() {
    let mut rng = Lcg(0xC0FFEE);
    for seed in 0..200u64 {
        rng.0 ^= seed.wrapping_mul(0x9E3779B97F4A7C15);
        let root_count = (rng.range(5) + 1) as usize;
        let blocks = random_blocks(&mut rng, 0, root_count);
        let text = render(&blocks);
        assert_eq!(parse(&text).unwrap(), blocks, "failed for text:\n{text}");
    }
}

#[test]
fn text_without_final_newline_parses() {
    assert_eq!(parse("- a\n  - b").unwrap(), vec![Block { content: "a".to_string(), children: vec![Block::new("b")] }]);
}

#[test]
fn missing_dash_reason_quotes_the_line() {
    match parse("- a\njust \"text\"\n") {
        Err(CoreError::MalformedBlock { line, reason }) => {
            assert_eq!(line, 2);
            assert_eq!(reason, "la riga non inizia con \"- \": \"just \\\"text\\\"\"");
        }
        other => panic!("unexpected: {other:?}"),
    }
}
