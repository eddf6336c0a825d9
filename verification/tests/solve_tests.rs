use rust_solv::repo::Repo;
use rust_solv::solve::{check_package_satisfiability_in_repo, get_formula_by_package_id, Lit,
                       SolveError};

fn package(name: &str, provides: &[&str], requires: &[&str], obsoletes: &[&str]) -> String {
    let mut s = String::new();
    s.push_str("<package type=\"rpm\"><name>");
    s.push_str(name);
    s.push_str("</name><version epoch=\"0\" ver=\"1.0\" rel=\"1\"/><format>");
    if !provides.is_empty() {
        s.push_str("<rpm:provides>");
        for p in provides {
            s.push_str(&format!("<rpm:entry name=\"{}\"/>", p));
        }
        s.push_str("</rpm:provides>");
    }
    if !requires.is_empty() {
        s.push_str("<rpm:requires>");
        for r in requires {
            s.push_str(&format!("<rpm:entry name=\"{}\"/>", r));
        }
        s.push_str("</rpm:requires>");
    }
    if !obsoletes.is_empty() {
        s.push_str("<rpm:obsoletes>");
        for o in obsoletes {
            s.push_str(&format!("<rpm:entry name=\"{}\"/>", o));
        }
        s.push_str("</rpm:obsoletes>");
    }
    s.push_str("</format></package>");
    s
}

fn repo_of(packages: &[String]) -> Repo {
    let mut s = String::from("<?xml version=\"1.0\" encoding=\"UTF-8\"?>\n<metadata>");
    for p in packages {
        s.push_str(p);
    }
    s.push_str("</metadata>");
    Repo::from_str(&s).expect("metadata should parse")
}

fn lit(var: usize, pos: bool) -> Lit {
    Lit { var, pos }
}

#[test]
fn trivial_package_is_satisfiable() {
    let repo = repo_of(&[package("A", &[], &[], &[])]);
    assert_eq!(
        check_package_satisfiability_in_repo(&repo, &"A".to_string()),
        Ok(true)
    );
}

#[test]
fn test_satisfied() {
    let repo = repo_of(&[
        package("A", &[], &["cap_X"], &[]),
        package("B", &["cap_X"], &[], &[]),
    ]);
    assert_eq!(
        check_package_satisfiability_in_repo(&repo, &"A".to_string()),
        Ok(true)
    );
    // the encoder emits exactly (!A | B)
    let formula = get_formula_by_package_id(&repo, 0);
    assert_eq!(formula.clauses, vec![vec![lit(0, false), lit(1, true)]]);
}

#[test]
fn test_dependency_unsatisfied() {
    let repo = repo_of(&[package("A", &[], &["cap_X"], &[])]);
    assert_eq!(
        check_package_satisfiability_in_repo(&repo, &"A".to_string()),
        Ok(false)
    );
    // the encoder emits the unit clause (!A)
    let formula = get_formula_by_package_id(&repo, 0);
    assert_eq!(formula.clauses, vec![vec![lit(0, false)]]);
}

#[test]
fn chain_is_satisfiable() {
    let repo = repo_of(&[
        package("A", &[], &["cap_X"], &[]),
        package("B", &["cap_X"], &["cap_Y"], &[]),
        package("C", &["cap_Y"], &[], &[]),
    ]);
    assert_eq!(
        check_package_satisfiability_in_repo(&repo, &"A".to_string()),
        Ok(true)
    );
    let formula = get_formula_by_package_id(&repo, 0);
    assert_eq!(
        formula.clauses,
        vec![
            vec![lit(0, false), lit(1, true)],
            vec![lit(1, false), lit(2, true)],
        ]
    );
}

#[test]
fn obsolete_conflict_is_unsatisfiable() {
    let repo = repo_of(&[
        package("A", &[], &["cap_X"], &["cap_Y"]),
        package("B", &["cap_X", "cap_Y"], &[], &[]),
    ]);
    assert_eq!(
        check_package_satisfiability_in_repo(&repo, &"A".to_string()),
        Ok(false)
    );
    let formula = get_formula_by_package_id(&repo, 0);
    assert_eq!(
        formula.clauses,
        vec![
            vec![lit(0, false), lit(1, true)],
            vec![lit(0, false), lit(1, false)],
        ]
    );
}

#[test]
fn test_version_unsatisfied() {
    // version fields are recorded but ignored by matching: a requirement
    // on cap_X ver 2 is satisfied by a provider of cap_X ver 1
    let xml = "<metadata>\
        <package type=\"rpm\"><name>A</name>\
        <version epoch=\"0\" ver=\"1.0\" rel=\"1\"/>\
        <format><rpm:requires>\
        <rpm:entry name=\"cap_X\" flags=\"GE\" epoch=\"0\" ver=\"2\" rel=\"1\"/>\
        </rpm:requires></format></package>\
        <package type=\"rpm\"><name>B</name>\
        <version epoch=\"0\" ver=\"1.0\" rel=\"1\"/>\
        <format><rpm:provides>\
        <rpm:entry name=\"cap_X\" flags=\"EQ\" epoch=\"0\" ver=\"1\" rel=\"1\"/>\
        </rpm:provides></format></package>\
        </metadata>";
    let repo = Repo::from_str(xml).expect("metadata should parse");
    assert_eq!(
        check_package_satisfiability_in_repo(&repo, &"A".to_string()),
        Ok(true)
    );
}

#[test]
fn missing_root_is_not_found() {
    let repo = repo_of(&[package("A", &[], &[], &[])]);
    assert_eq!(
        check_package_satisfiability_in_repo(&repo, &"Z".to_string()),
        Err(SolveError::NotFound)
    );
}

#[test]
fn encoding_is_deterministic() {
    let parts = [
        package("A", &[], &["cap_X"], &["cap_Y"]),
        package("B", &["cap_X", "cap_Y"], &["cap_Z"], &[]),
        package("C", &["cap_Z"], &[], &[]),
    ];
    let repo1 = repo_of(&parts);
    let repo2 = repo_of(&parts);
    let f1 = get_formula_by_package_id(&repo1, 0);
    let f2 = get_formula_by_package_id(&repo1, 0);
    let f3 = get_formula_by_package_id(&repo2, 0);
    assert_eq!(f1, f2);
    assert_eq!(f1, f3);
}

#[test]
fn unreachable_packages_stay_out_of_the_formula() {
    let repo = repo_of(&[
        package("A", &[], &["cap_X"], &[]),
        package("B", &["cap_X"], &[], &[]),
        package("D", &["cap_D"], &["cap_E"], &[]),
    ]);
    let formula = get_formula_by_package_id(&repo, 0);
    for clause in &formula.clauses {
        for l in clause {
            assert!(l.var <= 1, "literal {} is not reachable from A", l.var);
        }
    }
}

#[test]
fn conflicts_use_the_recorded_clause_shape() {
    // conflicts are encoded with the same positive-provider shape as
    // requires: (!A | B); the stricter per-provider negation is
    // deliberately not substituted
    let xml = "<metadata>\
        <package type=\"rpm\"><name>A</name>\
        <version epoch=\"0\" ver=\"1.0\" rel=\"1\"/>\
        <format><rpm:conflicts><rpm:entry name=\"cap_X\"/></rpm:conflicts></format>\
        </package>\
        <package type=\"rpm\"><name>B</name>\
        <version epoch=\"0\" ver=\"1.0\" rel=\"1\"/>\
        <format><rpm:provides><rpm:entry name=\"cap_X\"/></rpm:provides></format>\
        </package>\
        </metadata>";
    let repo = Repo::from_str(xml).expect("metadata should parse");
    let formula = get_formula_by_package_id(&repo, 0);
    assert_eq!(formula.clauses, vec![vec![lit(0, false), lit(1, true)]]);
}
