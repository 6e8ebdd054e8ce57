use spellmut::mutation::{generate, process_split, MutationContext, MutationTarget};
use spellmut::mutation::mutate_string::MutateStringIter;
use spellmut::phrase::{join_tokens, normalize_name, tokenize};
use spellmut::spellcheck::Spellchecker;
use spellmut::spellchecking::legacy::OldSpellChecker;
use spellmut::spellchecking::AnyChecker;
use spellmut::types::{MutationConfig, MutationError, Overrides};

fn b(s: &str) -> Vec<u8> {
    s.as_bytes().to_vec()
}

fn candidates(src: &str, depth: usize, ov: &Overrides) -> Vec<(Vec<u8>, usize)> {
    generate(&b(src), depth, ov, None)
}

fn has_candidate(rs: &Vec<(Vec<u8>, usize)>, s: &str) -> bool {
    rs.iter().any(|(c, _)| c == &b(s))
}

fn candidate_depth(rs: &Vec<(Vec<u8>, usize)>, s: &str) -> Option<usize> {
    rs.iter().find(|(c, _)| c == &b(s)).map(|(_, d)| *d)
}

fn test_config(depth: usize) -> MutationConfig {
    MutationConfig {
        input_file: String::new(),
        overrides_file: String::new(),
        output_dir: String::new(),
        mutation_depth: depth,
        advanced_diagnostics: false,
        omit_zero_mutation_spells: false,
    }
}

#[test]
fn substitution_candidates_present() {
    let ov = Overrides::none();
    let rs = candidates("cat", 1, &ov);
    assert!(has_candidate(&rs, "bat"));
    assert!(has_candidate(&rs, "hat"));
    assert!(!has_candidate(&rs, "cat"));
}

#[test]
fn insertion_and_deletion_candidates_present() {
    let ov = Overrides::none();
    let rs = candidates("cat", 1, &ov);
    assert!(has_candidate(&rs, "cats"));
    assert!(has_candidate(&rs, "at"));
}

#[test]
fn split_candidate_present_for_long_token() {
    let ov = Overrides::none();
    let rs = candidates("fireball", 1, &ov);
    assert!(has_candidate(&rs, "fire ball"));
    // positions that leave fewer than three letters on a side are not split
    assert!(!has_candidate(&rs, "fi reball"));
    assert!(!has_candidate(&rs, "firebal l"));
}

#[test]
fn short_token_is_never_split() {
    let ov = Overrides::none();
    let rs = candidates("catfish", 1, &ov);
    assert!(!has_candidate(&rs, "cat fish"));
}

#[test]
fn boundary_edits_merge_tokens() {
    let ov = Overrides::none();
    let rs = candidates("cat dog", 1, &ov);
    assert!(has_candidate(&rs, "catdog"));
    assert!(has_candidate(&rs, "catadog"));
}

#[test]
fn source_phrase_never_reported() {
    let ov = Overrides::none();
    let rs = candidates("cab", 1, &ov);
    assert!(!has_candidate(&rs, "cab"));
    let rs2 = candidates("a", 2, &ov);
    assert!(!has_candidate(&rs2, "a"));
}

#[test]
fn repeated_runs_are_identical() {
    let ov = Overrides::none();
    let mut a = candidates("at", 2, &ov);
    let mut c = candidates("at", 2, &ov);
    a.sort();
    c.sort();
    assert_eq!(a, c);
}

#[test]
fn minimal_depth_is_reported_once() {
    let ov = Overrides::none();
    let rs = candidates("a", 2, &ov);
    // "a" -> "c" at depth 1; also reachable at depth 2, but reported once
    assert_eq!(candidate_depth(&rs, "c"), Some(1));
    let count = rs.iter().filter(|(c, _)| c == &b("c")).count();
    assert_eq!(count, 1);
    // two edits in a row appear at depth 2
    assert_eq!(candidate_depth(&rs, "cc"), Some(2));
}

#[test]
fn forced_split_override_controls_split_position() {
    let mut ov = Overrides::none();
    ov.forbid_split.push((b("fireball"), 4));
    let rs = candidates("fireball", 1, &ov);
    assert!(!has_candidate(&rs, "fire ball"));
    assert!(has_candidate(&rs, "fir eball"));

    let mut ov2 = Overrides::none();
    ov2.allow_split.push((b("fireball"), 2));
    let rs2 = candidates("fireball", 1, &ov2);
    assert!(has_candidate(&rs2, "fi reball"));
    assert!(!has_candidate(&rs2, "fire ball"));
}

#[test]
fn literal_mutation_list_bypasses_generation() {
    let mut ov = Overrides::none();
    ov.literal_mutations.push((b("cat"), vec![b("dog")]));
    let rs = candidates("cat", 1, &ov);
    assert!(has_candidate(&rs, "dog"));
    assert!(!has_candidate(&rs, "bat"));
    assert!(!has_candidate(&rs, "cats"));
    assert_eq!(rs.len(), 1);
}

#[test]
fn process_split_applies_forced_presplits() {
    let mut ov = Overrides::none();
    ov.allow_split.push((b("fireball"), 4));
    let toks = process_split(&b("fireball storm"), &ov).unwrap();
    assert_eq!(toks, vec![b("fire"), b("ball"), b("storm")]);
}

#[test]
fn process_split_rejects_unsupported_characters() {
    let ov = Overrides::none();
    let r = process_split(&b("caT"), &ov);
    assert_eq!(r, Err(MutationError::InvalidInputCharacter));
    let r2 = process_split(&b("ca t"), &ov);
    assert!(r2.is_ok());
}

#[test]
fn normalize_name_canonicalizes() {
    assert_eq!(normalize_name(&b("Mage's  Hand!")), b("mages hand"));
    assert_eq!(normalize_name(&b("  Ice Storm ")), b("ice storm"));
    assert_eq!(normalize_name(&b("X")), b("x"));
    assert_eq!(normalize_name(&b("--")), b(""));
}

#[test]
fn tokenize_and_join_round_trip() {
    let p = b("ice storm");
    let toks = tokenize(&p);
    assert_eq!(toks, vec![b("ice"), b("storm")]);
    assert_eq!(join_tokens(&toks), p);
}

#[test]
fn mutate_string_iter_walks_all_neighbors() {
    let mut it = MutateStringIter::new(b"cat".as_slice());
    let mut seen: Vec<Vec<u8>> = Vec::new();
    while let Some(m) = it.next() {
        seen.push(m);
    }
    assert!(seen.contains(&b("bat")));
    assert!(seen.contains(&b("cats")));
    assert!(seen.contains(&b("at")));
    assert!(seen.len() > 26);
}

#[test]
fn pipeline_reports_clean_candidates() {
    let aff = "";
    let dic = "bat\nhat\ncats\nat\ncat";
    let ov = Overrides::none();
    let checker = Spellchecker::load(aff, dic, &ov).unwrap();
    let target = MutationTarget::new(AnyChecker::Old(OldSpellChecker::new(checker)));
    let ctx = MutationContext::new(test_config(1), ov, vec![target]);
    let out = ctx.mutate(&b("cat"), 1).unwrap();
    assert_eq!(out.len(), 1);
    let recs = &out[0];
    assert!(recs.iter().any(|r| r.candidate == b("bat") && r.severity.value() == 0));
    assert!(recs.iter().any(|r| r.candidate == b("hat") && r.severity.value() == 0));
    assert!(!recs.iter().any(|r| r.candidate == b("cat")));
    // "at" is in the dictionary and a deletion, so it is clean too
    assert!(recs.iter().any(|r| r.candidate == b("at")));
    // "cats" is the original with "s" appended: an uninteresting
    // suffix transformation, excluded entirely
    assert!(!recs.iter().any(|r| r.candidate == b("cats")));
}

#[test]
fn pipeline_rejects_invalid_input() {
    let ov = Overrides::none();
    let ctx = MutationContext::new(test_config(1), ov, vec![]);
    assert!(matches!(ctx.mutate(&b("Cat"), 1), Err(MutationError::InvalidInputCharacter)));
}

#[test]
fn pipeline_runs_are_deterministic() {
    let ov = Overrides::none();
    let ctx = MutationContext::new(test_config(2), ov, vec![]);
    let a = ctx.mutate(&b("at"), 2).unwrap();
    let c = ctx.mutate(&b("at"), 2).unwrap();
    assert_eq!(a.len(), c.len());
}
