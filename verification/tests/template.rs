use job_names::{Template, TemplateError};

fn assignment(pairs: &[(&str, &str)]) -> Vec<(String, String)> {
    pairs
        .iter()
        .map(|(k, v)| (k.to_string(), v.to_string()))
        .collect()
}

fn apply(template: &str, pairs: &[(&str, &str)]) -> Result<String, TemplateError> {
    Template(template.to_string()).apply(&assignment(pairs))
}

#[test]
fn placeholder_gives_the_value() {
    assert_eq!(apply("${{ matrix.a }}", &[("a", "v")]), Ok("v".to_string()));
}

#[test]
fn missing_path_is_left_out() {
    assert_eq!(apply("x ${{ matrix.missing }} y", &[]), Ok("x y".to_string()));
}

#[test]
fn placeholder_without_prefix_fails() {
    assert_eq!(
        apply("${{ env.X }}", &[("X", "v")]),
        Err(TemplateError::InvalidPlaceholderPrefix("env.X".to_string()))
    );
    assert_eq!(
        apply("a ${{matrix}} b", &[]),
        Err(TemplateError::InvalidPlaceholderPrefix("matrix".to_string()))
    );
    assert_eq!(
        apply("${{}}", &[]),
        Err(TemplateError::InvalidPlaceholderPrefix(String::new()))
    );
    assert_eq!(
        apply("${{ Matrix.a }}", &[("a", "v")]),
        Err(TemplateError::InvalidPlaceholderPrefix("Matrix.a".to_string()))
    );
}

#[test]
fn placeholder_without_closer_fails() {
    assert_eq!(
        apply("a ${{ matrix.b", &[("b", "v")]),
        Err(TemplateError::UnterminatedPlaceholder)
    );
    assert_eq!(apply("${{", &[]), Err(TemplateError::UnterminatedPlaceholder));
    assert_eq!(
        apply("${{ matrix.a }", &[("a", "v")]),
        Err(TemplateError::UnterminatedPlaceholder)
    );
}

#[test]
fn empty_template_fails() {
    assert_eq!(apply("", &[]), Err(TemplateError::MissingTemplateBody));
    assert_eq!(apply("", &[("a", "v")]), Err(TemplateError::MissingTemplateBody));
}

#[test]
fn leftmost_fault_is_reported() {
    assert_eq!(
        apply("${{ env.X }} ${{ matrix.a", &[]),
        Err(TemplateError::InvalidPlaceholderPrefix("env.X".to_string()))
    );
    assert_eq!(
        apply("${{ matrix.a ${{ env.X }}", &[]),
        Err(TemplateError::UnterminatedPlaceholder)
    );
    assert_eq!(
        apply("${{ matrix.a }} ${{ b }} ${{ c }}", &[]),
        Err(TemplateError::InvalidPlaceholderPrefix("b".to_string()))
    );
}

#[test]
fn text_without_placeholder_is_tidied() {
    assert_eq!(apply("nix fmt", &[]), Ok("nix fmt".to_string()));
    assert_eq!(apply("  cargo  deny \n", &[]), Ok("cargo deny".to_string()));
    assert_eq!(apply("   ", &[]), Ok(String::new()));
    assert_eq!(apply("a }} b", &[]), Ok("a }} b".to_string()));
}

#[test]
fn whitespace_round_the_path_is_ignored() {
    assert_eq!(apply("${{matrix.a}}", &[("a", "v")]), Ok("v".to_string()));
    assert_eq!(apply("${{ \t matrix.a \n }}", &[("a", "v")]), Ok("v".to_string()));
    assert_eq!(apply("${{\u{a0}matrix.a\u{3000}}}", &[("a", "v")]), Ok("v".to_string()));
}

#[test]
fn whitespace_inside_the_path_is_kept() {
    assert_eq!(apply("${{ matrix. a }}", &[("a", "v")]), Ok(String::new()));
    assert_eq!(apply("${{ matrix.a b }}", &[("a b", "v")]), Ok("v".to_string()));
}

#[test]
fn dotted_path_is_one_key() {
    assert_eq!(
        apply(
            "${{ matrix.config.host }} (${{ matrix.config.check }})",
            &[("config.host", "macos-latest"), ("config.check", "clippy")]
        ),
        Ok("macos-latest (clippy)".to_string())
    );
    assert_eq!(apply("${{ matrix.config }}", &[("config.host", "x")]), Ok(String::new()));
}

#[test]
fn empty_path_is_looked_up() {
    assert_eq!(apply("a${{ matrix. }}b", &[("", "-")]), Ok("a-b".to_string()));
    assert_eq!(apply("a${{ matrix. }}b", &[]), Ok("ab".to_string()));
}

#[test]
fn last_pair_of_a_path_wins() {
    assert_eq!(
        apply("${{ matrix.a }}", &[("a", "first"), ("b", "x"), ("a", "last")]),
        Ok("last".to_string())
    );
}

#[test]
fn several_placeholders_are_resolved_in_order() {
    assert_eq!(
        apply(
            "enarx ${{ matrix.backend.name }} nightly ${{ matrix.profile.name }}",
            &[("backend.name", "sev"), ("profile.name", "debug with dbg")]
        ),
        Ok("enarx sev nightly debug with dbg".to_string())
    );
    assert_eq!(
        apply("${{ matrix.a }}${{ matrix.b }}${{ matrix.a }}", &[("a", "1"), ("b", "2")]),
        Ok("121".to_string())
    );
}

#[test]
fn gaps_of_left_out_placeholders_are_closed() {
    assert_eq!(
        apply("a ${{ matrix.x }} b ${{ matrix.y }} c", &[]),
        Ok("a b c".to_string())
    );
    assert_eq!(apply("${{ matrix.x }} a", &[]), Ok("a".to_string()));
    assert_eq!(apply("a ${{ matrix.x }}", &[]), Ok("a".to_string()));
}

#[test]
fn spaces_are_halved_in_one_pass() {
    assert_eq!(apply("a   b", &[]), Ok("a  b".to_string()));
    assert_eq!(apply("a    b", &[]), Ok("a  b".to_string()));
    assert_eq!(apply("a     b", &[]), Ok("a   b".to_string()));
    assert_eq!(
        apply("a ${{ matrix.x }} ${{ matrix.y }} b", &[]),
        Ok("a  b".to_string())
    );
}

#[test]
fn value_is_tidied_with_the_rest() {
    assert_eq!(apply("${{ matrix.a }}", &[("a", "  x  y  ")]), Ok("x y".to_string()));
    assert_eq!(apply("[${{ matrix.a }}]", &[("a", "  x  ")]), Ok("[ x ]".to_string()));
}

#[test]
fn value_is_not_resolved_again() {
    assert_eq!(
        apply("${{ matrix.a }}", &[("a", "${{ matrix.b }}"), ("b", "v")]),
        Ok("${{ matrix.b }}".to_string())
    );
    assert_eq!(apply("${{ matrix.a }}", &[("a", "${{")]), Ok("${{".to_string()));
}

#[test]
fn first_closer_ends_the_placeholder() {
    assert_eq!(apply("${{ matrix.a }} }}", &[("a", "v")]), Ok("v }}".to_string()));
    assert_eq!(apply("${{ matrix.a }}}", &[("a", "v")]), Ok("v}".to_string()));
    assert_eq!(
        apply("${{ matrix.a } }}", &[("a", "v"), ("a }", "w")]),
        Ok("w".to_string())
    );
}

#[test]
fn characters_outside_ascii_are_kept() {
    assert_eq!(
        apply("prüfe ${{ matrix.läufer }} ✓", &[("läufer", "größe")]),
        Ok("prüfe größe ✓".to_string())
    );
}

#[test]
fn template_clone_is_the_same_template() {
    let template = Template("test ${{ matrix.os }}".to_string());
    let copy = template.clone();
    assert_eq!(copy.0, template.0);
    assert_eq!(
        copy.apply(&assignment(&[("os", "a")])),
        template.apply(&assignment(&[("os", "a")]))
    );
}

#[test]
fn errors_have_their_words() {
    assert_eq!(TemplateError::MissingTemplateBody.message(), "`name` missing");
    assert_eq!(TemplateError::UnterminatedPlaceholder.message(), "failed to find `}}`");
    assert_eq!(
        TemplateError::InvalidPlaceholderPrefix("env.X".to_string()).message(),
        "missing `matrix.` prefix in `env.X`"
    );
    assert_eq!(
        apply("${{ env.X }}", &[]).unwrap_err().message(),
        "missing `matrix.` prefix in `env.X`"
    );
}
