use std::collections::HashMap;

use job_names::{Matrix, MatrixValue, Template, TemplateError};

/// A small generator of repeatable pseudo-random numbers.
struct Numbers(u64);

impl Numbers {
    fn next(&mut self, below: usize) -> usize {
        self.0 = self
            .0
            .wrapping_mul(6364136223846793005)
            .wrapping_add(1442695040888963407);
        ((self.0 >> 33) as usize) % below
    }
}

/// Resolution written with the string functions of the standard library.
fn resolve(template: &str, matrix: &HashMap<String, String>) -> Result<String, TemplateError> {
    let mut it = template.split("${{");
    let mut out = String::from(it.next().ok_or(TemplateError::MissingTemplateBody)?);
    for part in it {
        let (name, tail) = part
            .split_once("}}")
            .ok_or(TemplateError::UnterminatedPlaceholder)?;
        let name = name.trim();
        let path = name
            .strip_prefix("matrix.")
            .ok_or_else(|| TemplateError::InvalidPlaceholderPrefix(name.to_string()))?;
        if let Some(v) = matrix.get(path) {
            out.push_str(v);
        }
        out.push_str(tail);
    }
    Ok(out.trim().replace("  ", " "))
}

#[test]
fn resolution_agrees_with_the_standard_library() {
    let pieces = [
        "${{", "}}", "$", "{", "}", " ", "  ", "matrix.", "matrix", ".", "a", "b", "a.b", "x",
        "\t", "\u{a0}", "é",
    ];
    let pairs = vec![
        ("a".to_string(), "1".to_string()),
        ("b".to_string(), " two  words ".to_string()),
        ("a.b".to_string(), "${{".to_string()),
        ("a".to_string(), "last".to_string()),
        ("".to_string(), "empty".to_string()),
    ];
    let map: HashMap<String, String> = pairs.iter().cloned().collect();
    let mut numbers = Numbers(7);
    let mut failed = 0;
    let mut resolved = 0;
    for _ in 0..20000 {
        let mut template = String::new();
        for _ in 0..1 + numbers.next(9) {
            template.push_str(pieces[numbers.next(pieces.len())]);
        }
        let expected = resolve(&template, &map);
        match expected {
            Ok(_) => resolved += 1,
            Err(_) => failed += 1,
        }
        assert_eq!(Template(template.clone()).apply(&pairs), expected, "{template:?}");
    }
    assert!(resolved > 1000);
    assert!(failed > 1000);
}

/// Expansion written with the iterators of the standard library.
fn alternatives(value: &MatrixValue) -> Vec<Vec<(String, String)>> {
    match value {
        MatrixValue::String(v) => vec![vec![(String::new(), v.clone())]],
        MatrixValue::List(items) => items
            .iter()
            .map(|item| alternatives(item).into_iter().flatten().collect())
            .collect(),
        MatrixValue::Matrix(m) => combinations(m),
    }
}

fn combinations(matrix: &Matrix) -> Vec<Vec<(String, String)>> {
    matrix
        .iter()
        .map(|(k, v)| {
            alternatives(v)
                .into_iter()
                .map(|a| {
                    a.into_iter()
                        .map(|(p, v)| {
                            if p.is_empty() {
                                (k.clone(), v)
                            } else {
                                (format!("{k}.{p}"), v)
                            }
                        })
                        .collect::<Vec<_>>()
                })
                .collect::<Vec<_>>()
        })
        .reduce(|l, r| {
            l.iter()
                .flat_map(|l| r.iter().map(|r| l.iter().chain(r).cloned().collect()))
                .collect()
        })
        .unwrap_or_default()
}

fn value(numbers: &mut Numbers, depth: usize) -> MatrixValue {
    let kind = if depth == 0 { 0 } else { numbers.next(4) };
    match kind {
        0 | 1 => MatrixValue::String(format!("v{}", numbers.next(5))),
        2 => MatrixValue::List(
            (0..numbers.next(4))
                .map(|_| value(numbers, depth - 1))
                .collect(),
        ),
        _ => MatrixValue::Matrix(matrix(numbers, depth - 1)),
    }
}

fn matrix(numbers: &mut Numbers, depth: usize) -> Matrix {
    Matrix(
        (0..numbers.next(4))
            .map(|_| (format!("k{}", numbers.next(3)), value(numbers, depth)))
            .collect(),
    )
}

#[test]
fn expansion_agrees_with_the_standard_library() {
    let mut numbers = Numbers(11);
    let mut some = 0;
    for _ in 0..3000 {
        let m = matrix(&mut numbers, 3);
        let expected = combinations(&m);
        if expected.len() > 1 {
            some += 1;
        }
        assert_eq!(m.expand(), expected, "{m:?}");
        let v = MatrixValue::Matrix(m);
        assert_eq!(v.expand(), alternatives(&v), "{v:?}");
        assert_eq!(v.into_iter().collect::<Vec<_>>(), expected);
    }
    assert!(some > 300);
}
