use cardtoml::{
    generate_character_name, parse_markov_file, parse_toml, CardType, MarkovChain, Narrator,
    TemplateInfo,
};

#[test]
fn markov_chain_verification() {
    // every letter's outgoing probabilities must add up to 255
    let mut content = String::new();
    for c in b'a'..=b'z' {
        let line = format!("{} {} 100\n{} {} 155\n", c as char, 'x', c as char, '_');
        content.push_str(&line);
    }
    let chain = parse_markov_file(&content).unwrap();

    let p: std::collections::HashMap<char, u128> = (b'a'..=b'z')
        .map(|c| (c as char, chain.probability_total(c as char)))
        .filter(|x| x.1 != 255)
        .collect();

    println!("{p:?}");

    let all_correct = (b'a'..=b'z').all(|c| chain.probability_total(c as char) == 255);

    assert!(all_correct);
}

#[test]
fn markov_file_rejects_malformed_lines() {
    assert!(parse_markov_file("a b\n").is_none());
    assert!(parse_markov_file("a b 256\n").is_none());
    assert!(parse_markov_file("A b 10\n").is_none());
    assert!(parse_markov_file("a b ten\n").is_none());
    assert!(parse_markov_file("\n").is_none());
    assert!(parse_markov_file("").is_some());
}

#[test]
fn markov_next_state_walks_cumulative_weights() {
    let mut chain = MarkovChain::new();
    chain.push_link('a', 'b', 100);
    chain.push_link('a', 'c', 155);
    assert_eq!(chain.next_state('a', 0), 'b');
    assert_eq!(chain.next_state('a', 100), 'b');
    assert_eq!(chain.next_state('a', 101), 'c');
    assert_eq!(chain.next_state('a', 255), 'c');
    // an empty node always signals the end
    assert_eq!(chain.next_state('z', 7), '_');
}

#[test]
fn generated_names_are_capitalised_words() {
    let chain = parse_markov_file("a b 100\nb a 255\na _ 155\n").unwrap();
    for _ in 0..50 {
        let name = generate_character_name(&chain);
        let chars: Vec<char> = name.chars().collect();
        assert!(1 <= chars.len() && chars.len() <= 13);
        assert!(chars[0].is_ascii_uppercase());
        assert!(chars[1..].iter().all(|c| c.is_ascii_lowercase()));
    }
}

#[test]
fn card_type_names() {
    assert_eq!(CardType::from_str("Artifact").unwrap(), CardType::Artifact);
    assert_eq!(CardType::from_str("Chaos").unwrap(), CardType::Chaos);
    assert_eq!(CardType::from_str("Event").unwrap(), CardType::Event);
    assert_eq!(CardType::from_str("Faction").unwrap(), CardType::Faction);
    assert_eq!(CardType::from_str("Hero").unwrap(), CardType::Hero);
    assert_eq!(CardType::from_str("Wonder").unwrap(), CardType::Wonder);
    assert!(CardType::from_str("artifact").is_err());
    assert!(CardType::from_str("").is_err());
}

#[test]
fn template_from_document() {
    let text = "title = \"Lighthouse\"\ndescription = \"Shines over the sea\"\ntype = \"Wonder\"\n";
    let doc = parse_toml(text).unwrap();
    let info = TemplateInfo::try_from(&doc).unwrap();
    assert_eq!(info.title, "Lighthouse");
    assert_eq!(info.desc, "Shines over the sea");
    assert_eq!(info.card_type, CardType::Wonder);
}

#[test]
fn template_missing_or_mistyped_fields() {
    let doc = parse_toml("title = \"x\"\ndescription = \"y\"\n").unwrap();
    assert!(TemplateInfo::try_from(&doc).is_err());
    let doc = parse_toml("title = 3\ndescription = \"y\"\ntype = \"Hero\"\n").unwrap();
    assert!(TemplateInfo::try_from(&doc).is_err());
    let doc = parse_toml("title = \"x\"\ndescription = \"y\"\ntype = \"Dragon\"\n").unwrap();
    assert!(TemplateInfo::try_from(&doc).is_err());
}

#[test]
fn narrator_starts_fresh() {
    let chain = MarkovChain::new();
    let narrator = Narrator::new(chain);
    // the chain is carried over and usable
    assert_eq!(narrator.chain.next_state('a', 1), '_');
}

#[test]
fn template_error_message() {
    assert_eq!(
        cardtoml::TemplateError.message(),
        "Error in template: Missing field(s) or wrong type(s)."
    );
}
