use pack_rust::text::{str_second_word, str_starts_with, str_trimmed};
use pack_rust::world::{
    has_religion_block, keyword_lines_have_names, Config, Culture, Faction, Religion, World,
};

fn lines(s: &str) -> Vec<String> {
    s.lines().map(|l| l.to_string()).collect()
}

#[test]
fn config_points_at_data_dir() {
    assert_eq!(Config::new().data_dir, "../../../../tools/unpacker/data");
}

#[test]
fn cultures_in_order() {
    let ls = lines("; comment\nculture  northern_european\n  culture indented\nculture\tsouthern_european extra\nfactions x");
    assert!(keyword_lines_have_names(&ls, "culture"));
    let cs = Culture::load_all(&ls);
    let names: Vec<&str> = cs.iter().map(|c| c.name.as_str()).collect();
    assert_eq!(names, vec!["northern_european", "southern_european"]);
    assert_eq!(cs.iter().map(|c| c.id).collect::<Vec<_>>(), vec![0, 1]);
}

#[test]
fn factions_in_order() {
    let ls = lines("faction england, promotion\nfaction\u{3000}scotland\nfactions\ttotal\n faction france");
    assert!(keyword_lines_have_names(&ls, "faction"));
    let fs = Faction::load_all(&ls);
    let names: Vec<&str> = fs.iter().map(|f| f.name.as_str()).collect();
    assert_eq!(names, vec!["england,", "scotland", "total"]);
    assert_eq!(fs[2].id, 2);
}

#[test]
fn religions_block() {
    let ls = lines("; header\nreligions\n{\n  catholic\n\torthodox  \n}\nislam");
    let rs = Religion::load_all(&ls);
    let names: Vec<&str> = rs.iter().map(|r| r.name.as_str()).collect();
    assert_eq!(names, vec!["catholic", "orthodox"]);
    assert_eq!(rs[1].id, 1);
    assert!(has_religion_block(&ls));
}

#[test]
fn world_from_three_files() {
    let w = World::load(
        &lines("culture a\nculture b"),
        &lines("religions\n{\nx\n}"),
        &lines("faction f"),
    );
    assert_eq!(w.cultures.len(), 2);
    assert_eq!(w.religions[0].name, "x");
    assert_eq!(w.factions[0].name, "f");
}

#[test]
fn line_scanning() {
    assert!(str_starts_with("culture x", "culture"));
    assert!(!str_starts_with("cult", "culture"));
    assert_eq!(str_second_word("  one  two three"), Some("two".to_string()));
    assert_eq!(str_second_word("one   "), None);
    assert_eq!(str_trimmed(" \t mid dle \u{a0}"), "mid dle");
    assert_eq!(str_trimmed("   "), "");
}

#[test]
fn malformed_description_files_are_detected() {
    assert!(!keyword_lines_have_names(&lines("culture a\nculture\n"), "culture"));
    assert!(!keyword_lines_have_names(&lines("factions  "), "faction"));
    assert!(keyword_lines_have_names(&lines("x culture\n"), "culture"));
    assert!(!has_religion_block(&lines("nothing here")));
    assert!(!has_religion_block(&lines("religions\n{")));
    assert!(!has_religion_block(&lines("religions\n}\nx")));
    assert!(has_religion_block(&lines("religions\n{\n}")));
    assert_eq!(Religion::load_all(&lines("religions\n{\n}")).len(), 0);
}
