use doc_md::index::generate_master_index;
use doc_md::orchestrator::{documented_names, record_target_outcome, ConverterReport, OutcomeRecord};

#[test]
fn master_index_with_all_sections() {
    let current = "my-app".to_string();
    let members = vec!["member-a".to_string(), "member_b".to_string()];
    let deps = vec!["serde".to_string(), "serde-json".to_string()];
    let out = generate_master_index(Some(&current), &members, &deps);
    let expected = "# Documentation Index\n\n\
                    Generated markdown documentation for this project.\n\n\
                    ## Current Crate\n\n\
                    - [`my-app`](my_app/index.md)\n\n\
                    ## Workspace Members (2)\n\n\
                    - [`member-a`](member_a/index.md)\n\
                    - [`member_b`](member_b/index.md)\n\n\
                    ## Dependencies (2)\n\n\
                    - [`serde`](serde/index.md)\n\
                    - [`serde-json`](serde_json/index.md)\n\n\
                    ---\n";
    assert_eq!(out, expected);
}

#[test]
fn master_index_omits_empty_sections() {
    let out = generate_master_index(None, &Vec::new(), &Vec::new());
    assert_eq!(
        out,
        "# Documentation Index\n\nGenerated markdown documentation for this project.\n\n---\n"
    );

    let current = "solo".to_string();
    let out = generate_master_index(Some(&current), &Vec::new(), &Vec::new());
    assert_eq!(
        out,
        "# Documentation Index\n\n\
         Generated markdown documentation for this project.\n\n\
         ## Current Crate\n\n\
         - [`solo`](solo/index.md)\n\n\
         ---\n"
    );

    let deps = vec!["one".to_string()];
    let out = generate_master_index(None, &Vec::new(), &deps);
    assert_eq!(
        out,
        "# Documentation Index\n\n\
         Generated markdown documentation for this project.\n\n\
         ## Dependencies (1)\n\n\
         - [`one`](one/index.md)\n\n\
         ---\n"
    );
}

#[test]
fn master_index_lists_only_documented_records() {
    // records {A: Documented, B: Skipped, C: Failed} => the index lists only A
    let mut records: Vec<OutcomeRecord> = Vec::new();
    record_target_outcome(&mut records, "A".to_string(), ConverterReport::Success);
    record_target_outcome(
        &mut records,
        "B".to_string(),
        ConverterReport::Skip("no documentable artifact".to_string()),
    );
    record_target_outcome(
        &mut records,
        "C".to_string(),
        ConverterReport::Failure("converter error".to_string()),
    );
    let listed = documented_names(&records);
    let out = generate_master_index(None, &Vec::new(), &listed);
    assert_eq!(
        out,
        "# Documentation Index\n\n\
         Generated markdown documentation for this project.\n\n\
         ## Dependencies (1)\n\n\
         - [`A`](A/index.md)\n\n\
         ---\n"
    );
    assert!(!out.contains("`B`"));
    assert!(!out.contains("`C`"));
}
