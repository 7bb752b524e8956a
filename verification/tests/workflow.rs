use job_names::workflow::default_name_of;
use job_names::{Job, Matrix, MatrixValue, Strategy, Template, TemplateError, Workflow};

fn list(items: &[&str]) -> MatrixValue {
    MatrixValue::List(items.iter().map(|s| MatrixValue::from(*s)).collect())
}

fn matrix(entries: Vec<(&str, MatrixValue)>) -> Matrix {
    Matrix(entries.into_iter().map(|(k, v)| (k.to_string(), v)).collect())
}

fn job(name: Option<&str>, matrix: Option<Matrix>) -> Job {
    Job {
        name: name.map(|n| Template(n.to_string())),
        strategy: matrix.map(|matrix| Strategy { matrix }),
    }
}

fn workflow(jobs: Vec<(&str, Job)>) -> Workflow {
    Workflow {
        jobs: jobs.into_iter().map(|(k, j)| (k.to_string(), j)).collect(),
    }
}

fn config(host: &str, system: &str, check: &str) -> MatrixValue {
    MatrixValue::Matrix(matrix(vec![
        ("host", host.into()),
        ("system", system.into()),
        ("check", check.into()),
    ]))
}

#[test]
fn job_without_name_and_strategy_has_its_key() {
    let w = workflow(vec![("build", job(None, None))]);
    assert_eq!(w.job_names(), Ok(vec!["build".to_string()]));
}

#[test]
fn job_without_name_lists_the_values() {
    let w = workflow(vec![(
        "checks",
        job(
            None,
            Some(matrix(vec![
                ("host", list(&["macos-latest", "ubuntu-latest"])),
                ("check", list(&["clippy", "nextest"])),
            ])),
        ),
    )]);
    assert_eq!(
        w.job_names(),
        Ok(vec![
            "checks (macos-latest, clippy)".to_string(),
            "checks (macos-latest, nextest)".to_string(),
            "checks (ubuntu-latest, clippy)".to_string(),
            "checks (ubuntu-latest, nextest)".to_string(),
        ])
    );
}

#[test]
fn job_with_name_and_matrix_resolves_each_combination() {
    let w = workflow(vec![(
        "job1",
        job(
            Some("test ${{ matrix.os }}"),
            Some(matrix(vec![("os", list(&["a", "b"]))])),
        ),
    )]);
    assert_eq!(w.job_names(), Ok(vec!["test a".to_string(), "test b".to_string()]));
}

#[test]
fn job_with_name_alone_is_resolved_against_nothing() {
    let w = workflow(vec![
        ("nix-fmt", job(Some("nix fmt"), None)),
        ("other", job(Some("a ${{ matrix.x }} b ${{ matrix.y }} c"), None)),
    ]);
    assert_eq!(w.job_names(), Ok(vec!["nix fmt".to_string(), "a b c".to_string()]));
}

#[test]
fn names_come_in_the_order_of_the_jobs() {
    let w = workflow(vec![
        ("nix-fmt", job(Some("nix fmt"), None)),
        (
            "checks",
            job(
                None,
                Some(matrix(vec![(
                    "config",
                    MatrixValue::List(vec![
                        config("macos-latest", "x86_64-darwin", "clippy"),
                        config("macos-latest", "x86_64-darwin", "nextest"),
                        config("ubuntu-latest", "x86_64-linux", "clippy"),
                        config("ubuntu-latest", "x86_64-linux", "nextest"),
                        config("ubuntu-latest", "x86_64-linux", "fmt"),
                    ]),
                )])),
            ),
        ),
    ]);
    assert_eq!(
        w.job_names(),
        Ok(vec![
            "nix fmt".to_string(),
            "checks (macos-latest, x86_64-darwin, clippy)".to_string(),
            "checks (macos-latest, x86_64-darwin, nextest)".to_string(),
            "checks (ubuntu-latest, x86_64-linux, clippy)".to_string(),
            "checks (ubuntu-latest, x86_64-linux, nextest)".to_string(),
            "checks (ubuntu-latest, x86_64-linux, fmt)".to_string(),
        ])
    );
}

#[test]
fn nested_paths_are_used_by_the_template() {
    let backend = |name: &str| MatrixValue::Matrix(matrix(vec![("name", name.into())]));
    let w = workflow(vec![(
        "test",
        job(
            Some("enarx ${{ matrix.backend.name }} nightly ${{ matrix.profile }}"),
            Some(matrix(vec![
                ("backend", MatrixValue::List(vec![backend("sev"), backend("sgx")])),
                ("profile", list(&["debug", "release"])),
            ])),
        ),
    )]);
    assert_eq!(
        w.job_names(),
        Ok(vec![
            "enarx sev nightly debug".to_string(),
            "enarx sev nightly release".to_string(),
            "enarx sgx nightly debug".to_string(),
            "enarx sgx nightly release".to_string(),
        ])
    );
}

#[test]
fn empty_workflow_has_no_names() {
    assert_eq!(workflow(vec![]).job_names(), Ok(vec![]));
}

#[test]
fn empty_matrix_gives_no_names() {
    let w = workflow(vec![
        ("a", job(None, Some(Matrix::default()))),
        ("b", job(Some("name"), Some(Matrix::default()))),
        ("c", job(Some("${{ broken"), Some(Matrix::default()))),
        ("d", job(None, None)),
    ]);
    assert_eq!(w.job_names(), Ok(vec!["d".to_string()]));
}

#[test]
fn failing_template_fails_the_workflow() {
    let w = workflow(vec![
        ("a", job(None, None)),
        ("b", job(Some("${{ env.X }}"), None)),
        ("c", job(None, None)),
    ]);
    assert_eq!(
        w.job_names(),
        Err(TemplateError::InvalidPlaceholderPrefix("env.X".to_string()))
    );
}

#[test]
fn failing_template_with_matrix_fails_the_job() {
    let j = job(
        Some("test ${{ matrix.os"),
        Some(matrix(vec![("os", list(&["a", "b"]))])),
    );
    assert_eq!(j.names(&"job1".to_string()), Err(TemplateError::UnterminatedPlaceholder));
    let w = workflow(vec![("ok", job(None, None)), ("job1", j)]);
    assert_eq!(w.job_names(), Err(TemplateError::UnterminatedPlaceholder));
}

#[test]
fn empty_name_fails() {
    let w = workflow(vec![("a", job(Some(""), None))]);
    assert_eq!(w.job_names(), Err(TemplateError::MissingTemplateBody));
}

#[test]
fn first_failing_job_gives_the_error() {
    let w = workflow(vec![
        ("a", job(Some("${{ matrix.x"), None)),
        ("b", job(Some("${{ env.X }}"), None)),
    ]);
    assert_eq!(w.job_names(), Err(TemplateError::UnterminatedPlaceholder));
}

#[test]
fn job_names_of_one_job() {
    let j = job(None, Some(matrix(vec![("os", list(&["a", "b"]))])));
    assert_eq!(
        j.names(&"build".to_string()),
        Ok(vec!["build (a)".to_string(), "build (b)".to_string()])
    );
    assert_eq!(job(None, None).names(&"build".to_string()), Ok(vec!["build".to_string()]));
}

#[test]
fn default_name_joins_the_values() {
    let a = vec![
        ("host".to_string(), "macos-latest".to_string()),
        ("check".to_string(), "clippy".to_string()),
    ];
    assert_eq!(default_name_of(&"checks".to_string(), &a), "checks (macos-latest, clippy)");
    let one = vec![("os".to_string(), "a".to_string())];
    assert_eq!(default_name_of(&"build".to_string(), &one), "build (a)");
    assert_eq!(default_name_of(&"build".to_string(), &Vec::new()), "build ()");
}

#[test]
fn repeated_key_gives_both_values_and_the_last_to_the_template() {
    let m = || matrix(vec![("os", "a".into()), ("os", "b".into())]);
    let w = workflow(vec![
        ("plain", job(None, Some(m()))),
        ("named", job(Some("on ${{ matrix.os }}"), Some(m()))),
    ]);
    assert_eq!(
        w.job_names(),
        Ok(vec!["plain (a, b)".to_string(), "on b".to_string()])
    );
}
