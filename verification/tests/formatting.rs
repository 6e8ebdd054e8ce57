use spellmut::diagnostics::Diagnostics;
use spellmut::format::{render_mutation_line, u8_to_string, usize_to_string};
use spellmut::spellchecking::freq::parse_freq_dict;
use spellmut::spellchecking::lemma::parse_lemma_dict;
use spellmut::spellchecking::CheckResult;
use spellmut::types::{parse_spells, MutationConfig, MutationError, Overrides, Spell};

fn b(s: &str) -> Vec<u8> {
    s.as_bytes().to_vec()
}

fn test_config(advanced: bool) -> MutationConfig {
    MutationConfig {
        input_file: String::new(),
        overrides_file: String::new(),
        output_dir: String::new(),
        mutation_depth: 1,
        advanced_diagnostics: advanced,
        omit_zero_mutation_spells: false,
    }
}

#[test]
fn decimal_rendering() {
    assert_eq!(usize_to_string(0), "0");
    assert_eq!(usize_to_string(7), "7");
    assert_eq!(usize_to_string(1234), "1234");
    assert_eq!(u8_to_string(255), "255");
}

#[test]
fn spell_level_rendering() {
    let mut sp = Spell {
        name: "Ice Storm".to_string(),
        level: 0,
        school: "Evocation".to_string(),
        source: "PHB".to_string(),
        cast_time: "1 action".to_string(),
        components: "V S".to_string(),
        concentration: false,
        ritual: false,
    };
    assert_eq!(sp.write_spell_level(), "Cantrip");
    sp.level = 1;
    assert_eq!(sp.write_spell_level(), "1st");
    sp.level = 2;
    assert_eq!(sp.write_spell_level(), "2nd");
    sp.level = 3;
    assert_eq!(sp.write_spell_level(), "3rd");
    sp.level = 9;
    assert_eq!(sp.write_spell_level(), "9th");
    sp.level = 11;
    assert_eq!(sp.write_spell_level(), "11th");
}

#[test]
fn spell_information_rendering() {
    let sp = Spell {
        name: "Ice Storm".to_string(),
        level: 4,
        school: "Evocation".to_string(),
        source: "PHB".to_string(),
        cast_time: "1 action".to_string(),
        components: "V S M".to_string(),
        concentration: false,
        ritual: false,
    };
    assert_eq!(
        sp.write_spell_information(),
        "\nIce Storm,\n4th level Evocation,\n1 action, V S M (PHB)\n\n",
    );
    let cantrip = Spell {
        name: "Ray".to_string(),
        level: 0,
        school: "Necromancy".to_string(),
        source: "PHB".to_string(),
        cast_time: "1 action".to_string(),
        components: "V".to_string(),
        concentration: true,
        ritual: false,
    };
    assert_eq!(
        cantrip.write_spell_information(),
        "\nRay,\nNecromancy Cantrip,\n1 action, V<C> (PHB)\n\n",
    );
}

#[test]
fn mutation_line_rendering() {
    assert_eq!(render_mutation_line(CheckResult::new(0), &b("ice storm")), "ice storm\n");
    assert_eq!(render_mutation_line(CheckResult::new(3), &b("ace storm")), "#(3) ace storm\n");
}

#[test]
fn parse_spells_reads_tab_separated_lines() {
    let raw = "Ice Storm\t4\tEvocation\t\t1 action\tV S M\tyes\tPHB\nBad Line\t1\nFire Bolt\t0\tEvocation\tR\t1 action\tV\t\tPHB\n";
    let spells = parse_spells(raw);
    assert_eq!(spells.len(), 2);
    assert_eq!(spells[0].name, "Ice Storm");
    assert_eq!(spells[0].level, 4);
    assert_eq!(spells[0].school, "Evocation");
    assert!(!spells[0].ritual);
    assert!(spells[0].concentration);
    assert_eq!(spells[1].name, "Fire Bolt");
    assert_eq!(spells[1].level, 0);
    assert!(spells[1].ritual);
    assert!(!spells[1].concentration);
    assert_eq!(spells[1].source, "PHB");
}

#[test]
fn diagnostics_counts_and_report() {
    let mut d = Diagnostics::new();
    d.initial_spell_count = 2;
    d.log_initial_word(&b("ice"));
    d.log_initial_word(&b("storm"));
    d.log_initial_word(&b("ice"));
    d.final_spell_count = 1;
    let report = d.stringify(&test_config(false), false);
    assert_eq!(
        report,
        "initial spell count: 2\ninitial word count: 2\nfinal spell count: 1",
    );
    let advanced = d.stringify(&test_config(true), false);
    assert_eq!(
        advanced,
        "initial spell count: 2\ninitial word count: 2\nfinal spell count: 1\n\nword usage:\n- ice: 2\n- storm: 1",
    );
    d.log_procedural_split(&b("iceberg"), &b("ice berg"), CheckResult::new(2));
    let verbose = d.stringify(&test_config(true), true);
    assert_eq!(
        verbose,
        "initial spell count: 2\ninitial word count: 2\nfinal spell count: 1\n\nword usage:\n- ice: 2\n- storm: 1\n\nprocedurally split words:\n#(2) iceberg: ice berg",
    );
}

#[test]
fn diagnostics_phrase_logging() {
    let mut d = Diagnostics::new();
    let toks = vec![b("fire"), b("ball")];
    let records = vec![vec![
        spellmut::mutation::MutationRecord {
            candidate: b("fi re ball"),
            depth: 1,
            severity: CheckResult::new(2),
        },
        spellmut::mutation::MutationRecord {
            candidate: b("fire call"),
            depth: 1,
            severity: CheckResult::new(0),
        },
    ]];
    d.log_phrase(&toks, &records);
    // both source words counted, the phrase tallied, and only the
    // candidate with more tokens than the source logged as a split
    assert_eq!(d.initial_word_usage.len(), 2);
    assert_eq!(d.final_spell_count, 1);
    assert_eq!(d.word_splits.len(), 1);
    assert_eq!(d.word_splits[0].0, b("fire ball"));
    assert_eq!(d.word_splits[0].1, vec![(CheckResult::new(2), b("fi re ball"))]);
}

#[test]
fn diagnostics_split_log_deduplicates() {
    let mut d = Diagnostics::new();
    d.log_procedural_split(&b("fireball"), &b("fire ball"), CheckResult::new(0));
    d.log_procedural_split(&b("fireball"), &b("fire ball"), CheckResult::new(0));
    d.log_procedural_split(&b("fireball"), &b("fir eball"), CheckResult::new(2));
    assert_eq!(d.word_splits.len(), 1);
    assert_eq!(d.word_splits[0].1.len(), 2);
}

#[test]
fn lemma_dictionary_parsing() {
    let text = "run -> [rn]\n    running, ran\nwalk\n";
    let groups = parse_lemma_dict(&b(text)).unwrap();
    assert_eq!(groups.len(), 2);
    assert_eq!(groups[0].members, vec![b("run"), b("running"), b("ran")]);
    assert_eq!(groups[1].members, vec![b("walk")]);
    // a continuation before any record is malformed
    assert!(matches!(
        parse_lemma_dict(&b("    stray\n")),
        Err(MutationError::ResourceLoad)
    ));
}

#[test]
fn freq_dictionary_parsing() {
    let text = "--- 1 ---\ncat\n    cats, (old)\n\n--- 2 ---\ndog!\n";
    let groups = parse_freq_dict(&b(text)).unwrap();
    assert_eq!(groups.len(), 2);
    assert_eq!(groups[0].tier, 0);
    assert_eq!(groups[0].members, vec![b("cat"), b("cats")]);
    assert_eq!(groups[1].tier, 1);
    assert_eq!(groups[1].members, vec![b("dog")]);
    // a word line before any section marker is malformed
    assert!(matches!(
        parse_freq_dict(&b("cat\n")),
        Err(MutationError::ResourceLoad)
    ));
}

#[test]
fn compressed_count_wraps_lines() {
    let mut lines: Vec<String> = Vec::new();
    let words: Vec<Vec<u8>> = vec![b("alpha"), b("beta")];
    spellmut::diagnostics::compressed_count(&mut lines, 3, &words);
    assert_eq!(lines, vec!["\nwords used 3 times:".to_string(), "- alpha, beta".to_string()]);

    // long words force a wrap; the flushed line carries a trailing comma
    let mut lines2: Vec<String> = Vec::new();
    let long_a = "a".repeat(50);
    let long_b = "b".repeat(50);
    let words2: Vec<Vec<u8>> = vec![b(&long_a), b(&long_b)];
    spellmut::diagnostics::compressed_count(&mut lines2, 1, &words2);
    assert_eq!(lines2.len(), 3);
    assert_eq!(lines2[1], format!("- {long_a},"));
    assert_eq!(lines2[2], format!("- {long_b}"));
}

#[test]
fn split_words_renders_one_record() {
    let mut lines: Vec<String> = Vec::new();
    spellmut::diagnostics::split_words(&mut lines, &b("fireball"), CheckResult::new(2), &b("fire ball"));
    assert_eq!(lines, vec!["#(2) fireball: fire ball".to_string()]);
}

#[test]
fn overrides_lookups() {
    let mut ov = Overrides::none();
    ov.allow_split.push((b("fireball"), 4));
    ov.forbid_split.push((b("catfishes"), 3));
    ov.illegal_words.push(b("bad"));
    ov.force_allow.push(b("good"));
    assert_eq!(ov.forced_split(&b("fireball")), Some(4));
    assert_eq!(ov.forced_split(&b("other")), None);
    assert_eq!(ov.forbidden_split(&b("catfishes")), Some(3));
    assert!(ov.is_illegal(&b("bad")));
    assert!(!ov.is_illegal(&b("good")));
    assert!(ov.is_force_allowed(&b("good")));
}
