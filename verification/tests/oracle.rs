use spellmut::relation::{RelationGraph, RelationGroup};
use spellmut::spellcheck::Spellchecker;
use spellmut::spellchecking::freq::FreqSpellChecker;
use spellmut::spellchecking::legacy::OldSpellChecker;
use spellmut::spellchecking::lemma::LemmaSpellChecker;
use spellmut::spellchecking::{CheckResult, SpellChecker};
use spellmut::types::{MutationError, Overrides};

fn b(s: &str) -> Vec<u8> {
    s.as_bytes().to_vec()
}

fn group(tier: u8, members: &[&str]) -> RelationGroup {
    RelationGroup { tier, members: members.iter().map(|m| b(m)).collect() }
}

#[test]
fn check_result_scale() {
    let ok = CheckResult::new(0);
    let flagged = CheckResult::new(7);
    let bad = CheckResult::new(255);
    assert!(!ok.is_fail());
    assert!(!flagged.is_fail());
    assert!(bad.is_fail());
    assert_eq!(ok.value(), 0);
    assert_eq!(flagged.value(), 7);
    assert_eq!(ok.worst(flagged).value(), 7);
    assert_eq!(flagged.worst(bad).value(), 255);
    assert_eq!(ok.worst(ok).value(), 0);
}

#[test]
fn check_result_prefix() {
    assert_eq!(CheckResult::new(0).prefix_string(), "");
    assert_eq!(CheckResult::new(5).prefix_string(), "#(5) ");
    assert_eq!(CheckResult::new(104).prefix_string(), "#(104) ");
}

#[test]
fn lemma_oracle_scenario() {
    // one component {run, running, ran}; "walked" present but unrelated
    let groups = vec![group(0, &["run", "running", "ran"]), group(0, &["walked"])];
    let oracle = LemmaSpellChecker::new(&groups);
    let flagged = oracle.check(&b("run"), &b("running"));
    assert!(!flagged.is_fail());
    assert!(flagged.value() > 0);
    assert_eq!(oracle.check(&b("run"), &b("jog")).value(), 255);
    assert_eq!(oracle.check(&b("run"), &b("walked")).value(), 0);
    // a candidate equal to its original is clean
    assert_eq!(oracle.check(&b("run"), &b("run")).value(), 0);
    assert_eq!(oracle.name(), "Lemma");
}

#[test]
fn relation_is_transitive_through_shared_members() {
    // "ran" joins both groups, so "run" and "sprint" share a component
    let groups = vec![group(0, &["run", "ran"]), group(0, &["ran", "sprint"])];
    let oracle = LemmaSpellChecker::new(&groups);
    assert_eq!(oracle.check(&b("run"), &b("sprint")).value(), 1);
}

#[test]
fn relation_graph_order_independence_scenario() {
    let ga = RelationGraph::build(&vec![group(3, &["run", "ran"]), group(9, &["ran", "sprint"])]);
    let gb = RelationGraph::build(&vec![group(9, &["ran", "sprint"]), group(3, &["run", "ran"])]);
    // connectivity is order-independent
    for (x, y) in [("run", "ran"), ("run", "sprint"), ("ran", "sprint")] {
        let xa = ga.find(&b(x)).unwrap();
        let ya = ga.find(&b(y)).unwrap();
        let xb = gb.find(&b(x)).unwrap();
        let yb = gb.find(&b(y)).unwrap();
        assert_eq!(
            ga.entries[xa].comp == ga.entries[ya].comp,
            gb.entries[xb].comp == gb.entries[yb].comp,
        );
        assert!(ga.entries[xa].comp == ga.entries[ya].comp);
    }
    // tiers follow processing order: the last write wins
    let ran_a = ga.find(&b("ran")).unwrap();
    let ran_b = gb.find(&b("ran")).unwrap();
    assert_eq!(ga.entries[ran_a].tier, 9);
    assert_eq!(gb.entries[ran_b].tier, 3);
    let run_a = ga.find(&b("run")).unwrap();
    let run_b = gb.find(&b("run")).unwrap();
    assert_eq!(ga.entries[run_a].tier, 3);
    assert_eq!(gb.entries[run_b].tier, 3);
}

#[test]
fn freq_oracle_tier_severity() {
    let groups = vec![group(20, &["rare", "rares"]), group(2, &["common", "commons"])];
    let oracle = FreqSpellChecker::new(&groups);
    // related candidate in tier 20: severity 100 + (20 - 16)
    assert_eq!(oracle.check(&b("rare"), &b("rares")).value(), 104);
    // related candidate in a low tier: severity 100
    assert_eq!(oracle.check(&b("common"), &b("commons")).value(), 100);
    // known but unrelated: clean
    assert_eq!(oracle.check(&b("rare"), &b("common")).value(), 0);
    // unknown: rejected
    assert_eq!(oracle.check(&b("rare"), &b("zzz")).value(), 255);
    assert_eq!(oracle.name(), "Frequency");
}

#[test]
fn heuristic_oracle_rules_in_order() {
    let aff = "";
    let dic = "hello\nworld\ncat\ncats";
    let mut ov = Overrides::none();
    ov.illegal_words.push(b("world"));
    ov.force_allow.push(b("zorku"));
    ov.force_allow.push(b("a"));
    let checker = Spellchecker::load(aff, dic, &ov).unwrap();
    let oracle = OldSpellChecker::new(checker);
    // clean dictionary hit
    assert_eq!(oracle.check(&b("hallo"), &b("hello")).value(), 0);
    // single letters are rejected
    assert_eq!(oracle.check(&b("aa"), &b("a")).value(), 255);
    // vowelless words are rejected
    assert_eq!(oracle.check(&b("grr"), &b("grr")).value(), 255);
    // denylisted words are rejected even though the dictionary has them
    assert_eq!(oracle.check(&b("word"), &b("world")).value(), 255);
    // allowlisted words are accepted though the dictionary lacks them
    assert_eq!(oracle.check(&b("word"), &b("zorku")).value(), 0);
    // the length rule comes before the allowlist, so a one-letter
    // allowlisted word is still rejected
    assert_eq!(oracle.check(&b("word"), &b("a")).value(), 255);
    // unknown words are rejected
    assert_eq!(oracle.check(&b("word"), &b("wrld")).value(), 255);
    // appending s to the original is excluded even though it is a hit
    assert_eq!(oracle.check(&b("cat"), &b("cats")).value(), 255);
    assert_eq!(oracle.name(), "Legacy");
}

#[test]
fn spellchecker_word_rules() {
    let aff = "";
    let dic = "hello";
    let mut ov = Overrides::none();
    ov.force_allow.push(b("qq"));
    let checker = Spellchecker::load(aff, dic, &ov).unwrap();
    assert!(checker.check_word(&b("hello")));
    assert!(!checker.check_word(&b("bello")));
    assert!(checker.check_word(&b("qq")));
    assert!(checker.force_allowed(&b("qq")));
    assert!(!checker.force_allowed(&b("hello")));
}

#[test]
fn load_rejects_out_of_limit_resources() {
    let ov = Overrides::none();
    // a rule count too large for the builder's limits
    assert!(matches!(
        Spellchecker::load("PFX A Y 99999999999\n", "hello", &ov),
        Err(MutationError::ResourceLoad)
    ));
    // non-ASCII affix text is out of limits too
    assert!(matches!(
        Spellchecker::load("S\u{c9}T UTF-8\n", "hello", &ov),
        Err(MutationError::ResourceLoad)
    ));
    // a rule table shorter than its declared count is malformed
    assert!(matches!(
        Spellchecker::load("REP 1\n", "hello", &ov),
        Err(MutationError::ResourceLoad)
    ));
}

#[test]
fn check_split_aggregates_worst_pair() {
    let groups = vec![group(0, &["run", "running"]), group(0, &["fast"])];
    let oracle = LemmaSpellChecker::new(&groups);
    // all pairs clean: zero
    assert_eq!(oracle.check_split(&b("run fast"), &b("run fast")).value(), 0);
    // one related pair: the maximum nonzero severity
    assert_eq!(oracle.check_split(&b("run fast"), &b("running fast")).value(), 1);
    // any rejected pair rejects the phrase
    assert_eq!(oracle.check_split(&b("run fast"), &b("running zzz")).value(), 255);
    // a split candidate pairs its extra token against the empty token:
    // known words stay clean, an unknown extra token rejects
    assert_eq!(oracle.check_split(&b("runfast"), &b("run fast")).value(), 0);
    assert_eq!(oracle.check_split(&b("runfast"), &b("run zzz")).value(), 255);
}
