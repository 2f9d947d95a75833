use sokoban::collection::{check_lvl_content, parse_xml_tokens, xml_outcome_result, Collection, XmlToken};
use sokoban::level::Level;
use sokoban::{Position, SokobanError};

const LVL_FILE: &str = "Tiny Set\nTwo small levels\n\n#####\n#@$.#\n#####\n\n######\n#@ $.#\n######\n";

const SLC_FILE: &str = r#"<?xml version="1.0" encoding="ISO-8859-1"?>
<SokobanLevels>
  <Title>Tiny XML</Title>
  <Description>Just one level &amp; nothing else</Description>
  <Email>someone@example.org</Email>
  <LevelCollection>
    <Level Id="first" Width="5" Height="3">
      <L>#####</L>
      <L>#@$.#</L>
      <L>#####</L>
    </Level>
  </LevelCollection>
</SokobanLevels>
"#;

#[test]
fn parse_lvl_reads_header_and_levels() {
    assert!(check_lvl_content(LVL_FILE, true));
    let c = Collection::parse_lvl("tiny", LVL_FILE, true).unwrap();
    assert_eq!(c.name, "Tiny Set");
    assert_eq!(c.short_name, "tiny");
    assert_eq!(c.description.as_deref(), Some("Tiny Set\nTwo small levels"));
    assert_eq!(c.number_of_levels(), 2);
    assert_eq!(c.levels().len(), 2);
    assert_eq!(c.levels()[1].rank, 2);
    assert_eq!(c.first_level().worker_position, Position { x: 1, y: 1 });
}

#[test]
fn parse_lvl_without_levels_counts_them() {
    let c = Collection::parse_lvl("tiny", LVL_FILE, false).unwrap();
    assert_eq!(c.number_of_levels(), 2);
    assert_eq!(c.levels().len(), 0);
}

#[test]
fn parse_lvl_reports_bad_level() {
    let content = "Broken\n\n#####\n#@$.#\n#####\n\n#####\n# $.#\n#####\n";
    assert!(check_lvl_content(content, true));
    match Collection::parse_lvl("broken", content, true) {
        Err(SokobanError::NoWorker(2)) => (),
        other => panic!("unexpected result {:?}", other.map(|c| c.name)),
    }
}

#[test]
fn lvl_content_with_unknown_character_cannot_be_parsed() {
    assert!(!check_lvl_content("Name\n\n#####\n#@$x#\n#####\n", true));
    assert!(check_lvl_content("Name\n\n#####\n#@$x#\n#####\n", false));
}

#[test]
fn parse_xml_reads_title_description_and_levels() {
    let c = Collection::parse_xml("tiny", SLC_FILE.as_bytes(), true).unwrap();
    assert_eq!(c.name, "Tiny XML");
    assert_eq!(c.short_name, "tiny");
    assert_eq!(c.description.as_deref(), Some("Just one level & nothing else"));
    assert_eq!(c.number_of_levels(), 1);
    assert_eq!(c.levels()[0].columns, 5);
    assert_eq!(c.levels()[0].crates, vec![Position { x: 2, y: 1 }]);
}

#[test]
fn parse_xml_without_levels_counts_them() {
    let c = Collection::parse_xml("tiny", SLC_FILE.as_bytes(), false).unwrap();
    assert_eq!(c.number_of_levels(), 1);
    assert_eq!(c.levels().len(), 0);
}

#[test]
fn parse_xml_reports_level_errors() {
    let content = "<Title>T</Title><Level><L>#####</L><L>#.$.#</L><L>#####</L></Level>";
    match Collection::parse_xml("t", content.as_bytes(), true) {
        Err(SokobanError::NoWorker(1)) => (),
        other => panic!("unexpected result {:?}", other.map(|c| c.name)),
    }
}

#[test]
fn parse_xml_reports_broken_xml() {
    let content = "<Title>T</Title><Level><L>#@$.#</Lx></Level>";
    match Collection::parse_xml("t", content.as_bytes(), true) {
        Err(SokobanError::XmlError(_)) => (),
        other => panic!("unexpected result {:?}", other.map(|c| c.name)),
    }
}

#[test]
fn parse_xml_tokens_follows_the_events() {
    let tokens = vec![
        XmlToken::Start(b"Title".to_vec()),
        XmlToken::Text(Ok("Hand made".to_string())),
        XmlToken::End(b"Title".to_vec()),
        XmlToken::Start(b"Level".to_vec()),
        XmlToken::Start(b"L".to_vec()),
        XmlToken::Text(Ok("####".to_string())),
        XmlToken::End(b"L".to_vec()),
        XmlToken::Start(b"L".to_vec()),
        XmlToken::Text(Ok("#@ #".to_string())),
        XmlToken::End(b"L".to_vec()),
        XmlToken::Start(b"L".to_vec()),
        XmlToken::Text(Ok("####".to_string())),
        XmlToken::End(b"L".to_vec()),
        XmlToken::End(b"Level".to_vec()),
        XmlToken::Eof,
    ];
    let c = xml_outcome_result(parse_xml_tokens("hand", &tokens, true)).unwrap();
    assert_eq!(c.name, "Hand made");
    assert_eq!(c.number_of_levels(), 1);
    assert_eq!(c.levels()[0].worker_position, Position { x: 1, y: 1 });
    let broken = vec![XmlToken::Start(b"Title".to_vec()), XmlToken::Error("bad".to_string())];
    match xml_outcome_result(parse_xml_tokens("hand", &broken, true)) {
        Err(SokobanError::XmlError(m)) => assert_eq!(m, "bad"),
        other => panic!("unexpected result {:?}", other.map(|c| c.name)),
    }
}

#[test]
fn from_levels_keeps_levels() {
    let lvl = Level::parse(0, "#####\n#@$.#\n#####").unwrap();
    let c = Collection::from_levels("Test", &[lvl]);
    assert_eq!(c.name(), "Test");
    assert_eq!(c.short_name(), "Test");
    assert_eq!(c.description(), None);
    assert_eq!(c.number_of_levels(), 1);
}

#[test]
fn error_messages() {
    assert_eq!(SokobanError::IoError("gone".to_string()).to_string(), "I/O error: gone");
    assert_eq!(SokobanError::XmlError("bad tag".to_string()).to_string(), "XML error: bad tag");
    assert_eq!(SokobanError::NoLevel(4).to_string(), "Empty description for level #4");
    assert_eq!(SokobanError::TwoWorkers(12).to_string(), "More than one worker in level #12");
}
