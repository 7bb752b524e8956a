//! Name templates and their resolution against an assignment.
//!
//! A template is literal text with placeholders of the form
//! `${{ matrix.<path> }}`. Resolving it replaces each placeholder by the value
//! that the assignment gives the path, or by nothing where it gives none, and
//! tidies the whitespace of the result.

use crate::matrix::{Assignment, AssignmentView};
use crate::text::{
    append, chars_of, find, find_in, has_prefix, lemma_split_once, pieces, replace, replace_all,
    slice, split, split_at_matches, starts_with, string_of, trim, trimmed,
};
use vstd::prelude::*;
use vstd::string::*;

verus! {

/// A name with placeholders.
#[derive(Debug)]
pub struct Template(pub String);

impl Clone for Template {
    fn clone(&self) -> (r: Self)
        ensures
            r == *self,
    {
        Template(self.0.clone())
    }
}

impl View for Template {
    type V = Seq<char>;

    open spec fn view(&self) -> Seq<char> {
        self.0@
    }
}

/// Why a template could not be resolved.
#[derive(Debug, PartialEq, Eq)]
pub enum TemplateError {
    /// The template is empty.
    MissingTemplateBody,
    /// A placeholder is opened and not closed.
    UnterminatedPlaceholder,
    /// The text of a placeholder, given here, does not begin with `matrix.`.
    InvalidPlaceholderPrefix(String),
}

/// What a `TemplateError` stands for.
pub enum TemplateErrorView {
    /// The template is empty.
    MissingTemplateBody,
    /// A placeholder is opened and not closed.
    UnterminatedPlaceholder,
    /// The text of a placeholder, given here, does not begin with `matrix.`.
    InvalidPlaceholderPrefix(Seq<char>),
}

impl View for TemplateError {
    type V = TemplateErrorView;

    open spec fn view(&self) -> TemplateErrorView {
        match self {
            TemplateError::MissingTemplateBody => TemplateErrorView::MissingTemplateBody,
            TemplateError::UnterminatedPlaceholder => TemplateErrorView::UnterminatedPlaceholder,
            TemplateError::InvalidPlaceholderPrefix(name) => {
                TemplateErrorView::InvalidPlaceholderPrefix(name@)
            },
        }
    }
}

impl TemplateErrorView {
    /// The error in words.
    pub open spec fn message(self) -> Seq<char> {
        match self {
            TemplateErrorView::MissingTemplateBody => "`name` missing"@,
            TemplateErrorView::UnterminatedPlaceholder => "failed to find `}}`"@,
            TemplateErrorView::InvalidPlaceholderPrefix(name) => {
                "missing `matrix.` prefix in `"@ + name + "`"@
            },
        }
    }
}

impl TemplateError {
    /// The error in words, with the text of the placeholder where it has one.
    pub fn message(&self) -> (r: String)
        ensures
            r@ == self@.message(),
    {
        match self {
            TemplateError::MissingTemplateBody => "`name` missing".to_owned(),
            TemplateError::UnterminatedPlaceholder => "failed to find `}}`".to_owned(),
            TemplateError::InvalidPlaceholderPrefix(name) => {
                let mut r = "missing `matrix.` prefix in `".to_owned();
                r.append(name.as_str());
                r.append("`");
                r
            },
        }
    }
}

/// What the outcome of resolving a template stands for.
pub open spec fn outcome_view(r: Result<String, TemplateError>) -> Result<
    Seq<char>,
    TemplateErrorView,
> {
    match r {
        Ok(name) => Ok(name@),
        Err(e) => Err(e@),
    }
}

/// The text that opens a placeholder: `${{`.
pub open spec fn opener() -> Seq<char> {
    seq!['$', '{', '{']
}

/// The text that closes a placeholder: `}}`.
pub open spec fn closer() -> Seq<char> {
    seq!['}', '}']
}

/// The text that a placeholder's content begins with: `matrix.`.
pub open spec fn path_prefix() -> Seq<char> {
    seq!['m', 'a', 't', 'r', 'i', 'x', '.']
}

/// The value that an assignment gives a path: that of the last pair with this
/// path, if there is one.
pub open spec fn lookup(a: AssignmentView, path: Seq<char>) -> Option<Seq<char>>
    decreases a.len(),
{
    if a.len() == 0 {
        None
    } else if a.last().0 == path {
        Some(a.last().1)
    } else {
        lookup(a.drop_last(), path)
    }
}

/// The text for what follows one opener, up to the next: the placeholder's
/// value, where the assignment has one, and the literal text behind the
/// closer.
pub open spec fn render_part(part: Seq<char>, a: AssignmentView) -> Result<
    Seq<char>,
    TemplateErrorView,
> {
    match find(part, closer()) {
        None => Err(TemplateErrorView::UnterminatedPlaceholder),
        Some(end) => {
            let name = trim(part.subrange(0, end));
            let tail = part.subrange(end + closer().len(), part.len() as int);
            if !starts_with(name, path_prefix()) {
                Err(TemplateErrorView::InvalidPlaceholderPrefix(name))
            } else {
                match lookup(a, name.skip(path_prefix().len() as int)) {
                    Some(value) => Ok(value + tail),
                    None => Ok(tail),
                }
            }
        },
    }
}

/// The texts of the given parts, one after the other; the error of the first
/// part that has one.
pub open spec fn render_parts(parts: Seq<Seq<char>>, a: AssignmentView) -> Result<
    Seq<char>,
    TemplateErrorView,
>
    decreases parts.len(),
{
    if parts.len() == 0 {
        Ok(Seq::empty())
    } else {
        match render_parts(parts.drop_last(), a) {
            Err(e) => Err(e),
            Ok(before) => match render_part(parts.last(), a) {
                Err(e) => Err(e),
                Ok(text) => Ok(before + text),
            },
        }
    }
}

/// `s` trimmed, and then with each two neighbouring spaces made one, in one
/// pass from the left.
pub open spec fn tidy(s: Seq<char>) -> Seq<char> {
    replace(trim(s), seq![' ', ' '], seq![' '])
}

/// The name that a template gives under an assignment, or why it gives none.
pub open spec fn render(template: Seq<char>, a: AssignmentView) -> Result<
    Seq<char>,
    TemplateErrorView,
> {
    if template.len() == 0 {
        Err(TemplateErrorView::MissingTemplateBody)
    } else {
        let parts = split(template, opener());
        match render_parts(parts.skip(1), a) {
            Err(e) => Err(e),
            Ok(body) => Ok(tidy(parts[0] + body)),
        }
    }
}

/// Looks a path up in an assignment.
pub fn value_of<'a>(a: &'a Assignment, path: &String) -> (r: Option<&'a String>)
    ensures
        match r {
            Some(value) => lookup(a.deep_view(), path@) == Some(value@),
            None => lookup(a.deep_view(), path@) is None,
        },
{
    let mut i: usize = a.len();
    assert(a.deep_view().take(a.len() as int) =~= a.deep_view());
    while i > 0
        invariant
            i <= a.len(),
            lookup(a.deep_view(), path@) == lookup(a.deep_view().take(i as int), path@),
        decreases i,
    {
        i -= 1;
        proof {
            let upto = a.deep_view().take(i + 1);
            assert(upto.drop_last() =~= a.deep_view().take(i as int));
            assert(upto.last() == a.deep_view()[i as int]);
        }
        if a[i].0 == *path {
            return Some(&a[i].1);
        }
    }
    None
}

/// Resolves what follows one opener.
pub fn resolve_part(part: &Vec<char>, a: &Assignment) -> (r: Result<Vec<char>, TemplateError>)
    ensures
        render_part(part@, a.deep_view()) == match r {
            Ok(text) => Ok(text@),
            Err(e) => Err(e@),
        },
{
    let close: Vec<char> = vec!['}', '}'];
    let prefix: Vec<char> = vec!['m', 'a', 't', 'r', 'i', 'x', '.'];
    assert(close@ =~= closer());
    assert(prefix@ =~= path_prefix());
    match find_in(part, &close, 0) {
        None => Err(TemplateError::UnterminatedPlaceholder),
        Some(end) => {
            let name = trimmed(&slice(part, 0, end));
            let mut text: Vec<char> = Vec::new();
            if !has_prefix(&name, &prefix) {
                return Err(TemplateError::InvalidPlaceholderPrefix(string_of(&name)));
            }
            let path = string_of(&slice(&name, prefix.len(), name.len()));
            match value_of(a, &path) {
                Some(value) => {
                    let chars = chars_of(value.as_str());
                    append(&mut text, &chars);
                },
                None => {},
            }
            let tail = slice(part, end + close.len(), part.len());
            append(&mut text, &tail);
            Ok(text)
        },
    }
}

/// Trims `s` and makes each two neighbouring spaces one.
pub fn tidied(s: &Vec<char>) -> (r: Vec<char>)
    ensures
        r@ == tidy(s@),
{
    let two: Vec<char> = vec![' ', ' '];
    let one: Vec<char> = vec![' '];
    assert(two@ =~= seq![' ', ' ']);
    assert(one@ =~= seq![' ']);
    replace_all(&trimmed(s), &two, &one)
}

impl Template {
    /// Resolves the template against an assignment.
    ///
    /// Fails on the empty template; on a placeholder that is not closed before
    /// the next one opens or the template ends; and on a placeholder whose
    /// trimmed content does not begin with `matrix.`. Of several faults the
    /// leftmost is reported.
    pub fn apply(&self, matrix: &Assignment) -> (r: Result<String, TemplateError>)
        ensures
            outcome_view(r) == render(self@, matrix.deep_view()),
    {
        let template = chars_of(self.0.as_str());
        if template.len() == 0 {
            return Err(TemplateError::MissingTemplateBody);
        }
        let open: Vec<char> = vec!['$', '{', '{'];
        assert(open@ =~= opener());
        let parts = split_at_matches(&template, &open);
        let ghost all = pieces(parts@);
        let mut out: Vec<char> = slice(&parts[0], 0, parts[0].len());
        let ghost mut body: Seq<char> = Seq::empty();
        let mut k: usize = 1;
        assert(all.skip(1).take(0) =~= Seq::<Seq<char>>::empty());
        while k < parts.len()
            invariant
                1 <= k <= parts.len(),
                self@.len() > 0,
                all == pieces(parts@),
                all == split(self@, opener()),
                render_parts(all.skip(1).take(k - 1), matrix.deep_view()) == Ok::<
                    Seq<char>,
                    TemplateErrorView,
                >(body),
                out@ == all[0] + body,
            decreases parts.len() - k,
        {
            proof {
                let upto = all.skip(1).take(k as int);
                assert(upto.drop_last() =~= all.skip(1).take(k - 1));
                assert(upto.last() == parts@[k as int]@);
            }
            match resolve_part(&parts[k], matrix) {
                Err(e) => {
                    proof {
                        let upto = all.skip(1).take(k as int);
                        assert(render_parts(upto, matrix.deep_view()) == Err::<
                            Seq<char>,
                            TemplateErrorView,
                        >(e@));
                        lemma_render_parts_error(all.skip(1), k as int, matrix.deep_view());
                    }
                    return Err(e);
                },
                Ok(text) => {
                    append(&mut out, &text);
                    proof {
                        body = body + text@;
                    }
                },
            }
            k += 1;
        }
        assert(all.skip(1).take(parts.len() - 1) =~= all.skip(1));
        Ok(string_of(&tidied(&out)))
    }
}

/// A path has a value exactly when a pair of the assignment holds it, and
/// the value is that of the last such pair.
pub proof fn lemma_lookup_last(a: AssignmentView, path: Seq<char>)
    ensures
        match lookup(a, path) {
            Some(value) => exists|i: int|
                0 <= i < a.len() && (#[trigger] a[i]).0 == path && a[i].1 == value && forall|
                    j: int,
                |
                    i < j < a.len() ==> (#[trigger] a[j]).0 != path,
            None => forall|i: int| 0 <= i < a.len() ==> (#[trigger] a[i]).0 != path,
        },
    decreases a.len(),
{
    if a.len() > 0 {
        let before = a.drop_last();
        if a.last().0 == path {
            let i = a.len() - 1;
            assert(a[i].0 == path && a[i].1 == a.last().1);
        } else {
            lemma_lookup_last(before, path);
            match lookup(before, path) {
                Some(value) => {
                    let i = choose|i: int|
                        0 <= i < before.len() && (#[trigger] before[i]).0 == path && before[i].1
                            == value && forall|j: int|
                            i < j < before.len() ==> (#[trigger] before[j]).0 != path;
                    assert(a[i] == before[i]);
                    assert forall|j: int| i < j < a.len() implies (#[trigger] a[j]).0 != path by {
                        if j < before.len() {
                            assert(a[j] == before[j]);
                        }
                    }
                },
                None => {
                    assert forall|i: int| 0 <= i < a.len() implies (#[trigger] a[i]).0
                        != path by {
                        if i < before.len() {
                            assert(a[i] == before[i]);
                        }
                    }
                },
            }
        }
    }
}

/// An error among the first `n` parts is the error of all the parts.
pub proof fn lemma_render_parts_error(
    parts: Seq<Seq<char>>,
    n: int,
    a: AssignmentView,
)
    requires
        0 <= n <= parts.len(),
        render_parts(parts.take(n), a) is Err,
    ensures
        render_parts(parts, a) == render_parts(parts.take(n), a),
    decreases parts.len(),
{
    if n == parts.len() {
        assert(parts.take(n) =~= parts);
    } else {
        assert(parts.drop_last().take(n) =~= parts.take(n));
        lemma_render_parts_error(parts.drop_last(), n, a);
    }
}

/// The parts resolve together exactly when each of them resolves.
pub proof fn lemma_render_parts_ok(parts: Seq<Seq<char>>, a: AssignmentView)
    ensures
        render_parts(parts, a) is Ok <==> forall|k: int|
            0 <= k < parts.len() ==> render_part(#[trigger] parts[k], a) is Ok,
    decreases parts.len(),
{
    if parts.len() > 0 {
        lemma_render_parts_ok(parts.drop_last(), a);
        if render_parts(parts, a) is Ok {
            assert forall|k: int| 0 <= k < parts.len() implies render_part(
                #[trigger] parts[k],
                a,
            ) is Ok by {
                if k < parts.len() - 1 {
                    assert(parts.drop_last()[k] == parts[k]);
                }
            }
        } else if render_parts(parts.drop_last(), a) is Err {
            let k = choose|k: int|
                0 <= k < parts.drop_last().len() && !(render_part(
                    #[trigger] parts.drop_last()[k],
                    a,
                ) is Ok);
            assert(parts.drop_last()[k] == parts[k]);
        } else {
            assert(render_part(parts.last(), a) is Err);
        }
    }
}

/// Of several faulty parts the first gives the error.
pub proof fn lemma_render_parts_first_fault(
    parts: Seq<Seq<char>>,
    a: AssignmentView,
    k: int,
)
    requires
        0 <= k < parts.len(),
        render_part(parts[k], a) is Err,
        forall|j: int| 0 <= j < k ==> render_part(#[trigger] parts[j], a) is Ok,
    ensures
        render_parts(parts, a) == Err::<Seq<char>, TemplateErrorView>(
            render_part(parts[k], a)->Err_0,
        ),
{
    let before = parts.take(k);
    let upto = parts.take(k + 1);
    lemma_render_parts_ok(before, a);
    assert forall|j: int| 0 <= j < before.len() implies render_part(
        #[trigger] before[j],
        a,
    ) is Ok by {
        assert(before[j] == parts[j]);
    }
    assert(upto.drop_last() =~= before);
    assert(upto.last() == parts[k]);
    assert(render_parts(upto, a) == Err::<Seq<char>, TemplateErrorView>(
        render_part(parts[k], a)->Err_0,
    ));
    lemma_render_parts_error(parts, k + 1, a);
}

/// What follows an opener is faulty exactly when it holds no closer, or when
/// the trimmed text before its first closer does not begin with `matrix.`.
/// The assignment plays no part in it.
pub proof fn lemma_part_fault(part: Seq<char>, a: AssignmentView)
    ensures
        render_part(part, a) is Err <==> (find(part, closer()) is None || !starts_with(
            trim(part.subrange(0, find(part, closer())->0)),
            path_prefix(),
        )),
        find(part, closer()) is None ==> render_part(part, a) == Err::<
            Seq<char>,
            TemplateErrorView,
        >(TemplateErrorView::UnterminatedPlaceholder),
        find(part, closer()) is Some && !starts_with(
            trim(part.subrange(0, find(part, closer())->0)),
            path_prefix(),
        ) ==> render_part(part, a) == Err::<Seq<char>, TemplateErrorView>(
            TemplateErrorView::InvalidPlaceholderPrefix(
                trim(part.subrange(0, find(part, closer())->0)),
            ),
        ),
{
}

/// A template fails to resolve exactly when it is empty or what follows one
/// of its openers is faulty.
pub proof fn lemma_render_fails(template: Seq<char>, a: AssignmentView)
    ensures
        render(template, a) is Err <==> (template.len() == 0 || exists|k: int|
            1 <= k < split(template, opener()).len() && render_part(
                #[trigger] split(template, opener())[k],
                a,
            ) is Err),
{
    if template.len() > 0 {
        let parts = split(template, opener());
        let rest = parts.skip(1);
        lemma_render_parts_ok(rest, a);
        if render(template, a) is Err {
            let j = choose|j: int|
                0 <= j < rest.len() && !(render_part(#[trigger] rest[j], a) is Ok);
            assert(rest[j] == parts[j + 1]);
            assert(render_part(parts[j + 1], a) is Err);
        } else {
            assert forall|k: int| 1 <= k < parts.len() implies !(render_part(
                #[trigger] parts[k],
                a,
            ) is Err) by {
                assert(rest[k - 1] == parts[k]);
            }
        }
    }
}

/// A placeholder that is not closed, or whose text does not begin with
/// `matrix.`, makes the template fail, whatever else it holds; the leftmost
/// such placeholder gives the error.
pub proof fn lemma_faulty_placeholder_fails(
    template: Seq<char>,
    a: AssignmentView,
    k: int,
)
    requires
        1 <= k < split(template, opener()).len(),
        render_part(split(template, opener())[k], a) is Err,
    ensures
        render(template, a) is Err,
        template.len() > 0 && (forall|j: int|
            1 <= j < k ==> render_part(#[trigger] split(template, opener())[j], a) is Ok)
            ==> render(template, a) == Err::<Seq<char>, TemplateErrorView>(
            render_part(split(template, opener())[k], a)->Err_0,
        ),
{
    lemma_render_fails(template, a);
    let parts = split(template, opener());
    let rest = parts.skip(1);
    if template.len() > 0 && (forall|j: int|
        1 <= j < k ==> render_part(#[trigger] parts[j], a) is Ok) {
        assert forall|j: int| 0 <= j < k - 1 implies render_part(#[trigger] rest[j], a) is Ok by {
            assert(rest[j] == parts[j + 1]);
        }
        assert(rest[k - 1] == parts[k]);
        lemma_render_parts_first_fault(rest, a, k - 1);
    }
}

/// Whether a template resolves, and with which error it fails, rests on the
/// template alone.
pub proof fn lemma_fault_ignores_assignment(
    template: Seq<char>,
    a: AssignmentView,
    b: AssignmentView,
)
    ensures
        render(template, a) is Err <==> render(template, b) is Err,
        render(template, a) is Err ==> render(template, a)->Err_0 == render(template, b)->Err_0,
{
    if template.len() > 0 {
        let rest = split(template, opener()).skip(1);
        lemma_render_parts_ignore_assignment(rest, a, b);
    }
}

/// Whether the parts resolve, and with which error they fail, rests on the
/// parts alone.
pub proof fn lemma_render_parts_ignore_assignment(
    parts: Seq<Seq<char>>,
    a: AssignmentView,
    b: AssignmentView,
)
    ensures
        render_parts(parts, a) is Err <==> render_parts(parts, b) is Err,
        render_parts(parts, a) is Err ==> render_parts(parts, a)->Err_0 == render_parts(
            parts,
            b,
        )->Err_0,
    decreases parts.len(),
{
    if parts.len() > 0 {
        lemma_render_parts_ignore_assignment(parts.drop_last(), a, b);
        lemma_part_fault(parts.last(), a);
        lemma_part_fault(parts.last(), b);
    }
}

/// A template that holds no opener is its own text, tidied.
pub proof fn lemma_render_literal(template: Seq<char>, a: AssignmentView)
    requires
        template.len() > 0,
        find(template, opener()) is None,
    ensures
        render(template, a) == Ok::<Seq<char>, TemplateErrorView>(tidy(template)),
{
    let parts = split(template, opener());
    assert(parts =~= seq![template.subrange(0, template.len() as int)]);
    assert(template.subrange(0, template.len() as int) =~= template);
    assert(parts.skip(1) =~= Seq::<Seq<char>>::empty());
    assert(parts[0] + Seq::<char>::empty() =~= template);
}

/// What follows an opener resolves to the value of its path and the text
/// behind its closer, where the closer is the first in it and the text before
/// the closer, trimmed, is `matrix.` and the path.
pub proof fn lemma_render_part_value(
    inner: Seq<char>,
    tail: Seq<char>,
    path: Seq<char>,
    a: AssignmentView,
)
    requires
        find(inner + closer() + tail, closer()) == Some(inner.len() as int),
        trim(inner) == path_prefix() + path,
    ensures
        render_part(inner + closer() + tail, a) == Ok::<Seq<char>, TemplateErrorView>(
            match lookup(a, path) {
                Some(value) => value,
                None => Seq::empty(),
            } + tail,
        ),
{
    let part = inner + closer() + tail;
    let k = inner.len() as int;
    assert(part.subrange(0, k) =~= inner);
    assert(part.subrange(k + closer().len(), part.len() as int) =~= tail);
    let name = path_prefix() + path;
    assert(name.subrange(0, path_prefix().len() as int) =~= path_prefix());
    assert(name.skip(path_prefix().len() as int) =~= path);
    assert(Seq::<char>::empty() + tail =~= tail);
}

/// A template with one placeholder resolves to its text with the value of
/// the path in the placeholder's place, tidied; where the assignment has no
/// such path, the placeholder leaves nothing.
///
/// The template is `head`, the opener, `inner`, the closer and `tail`, where
/// the opener is the first in the template and the only one, the closer is
/// the first behind it, and `inner`, trimmed, is `matrix.` and the path.
pub proof fn lemma_render_one_placeholder(
    head: Seq<char>,
    inner: Seq<char>,
    tail: Seq<char>,
    path: Seq<char>,
    a: AssignmentView,
)
    requires
        find(head + opener(), opener()) == Some(head.len() as int),
        find(inner + closer() + tail, opener()) is None,
        find(inner + closer() + tail, closer()) == Some(inner.len() as int),
        trim(inner) == path_prefix() + path,
    ensures
        render(head + opener() + inner + closer() + tail, a) == Ok::<Seq<char>, TemplateErrorView>(
            tidy(
                head + match lookup(a, path) {
                    Some(value) => value,
                    None => Seq::empty(),
                } + tail,
            ),
        ),
{
    let rest = inner + closer() + tail;
    let t = head + opener() + inner + closer() + tail;
    assert(t =~= head + opener() + rest);
    lemma_split_once(head, opener(), rest);
    let parts = split(t, opener());
    assert(parts.skip(1) =~= seq![rest]);
    let middle = match lookup(a, path) {
        Some(value) => value,
        None => Seq::empty(),
    };
    lemma_render_part_value(inner, tail, path, a);
    assert(render_parts(seq![rest], a) == Ok::<Seq<char>, TemplateErrorView>(
        Seq::<char>::empty() + (middle + tail),
    )) by {
        assert(seq![rest].drop_last() =~= Seq::<Seq<char>>::empty());
        assert(render_parts(seq![rest].drop_last(), a) == Ok::<Seq<char>, TemplateErrorView>(
            Seq::empty(),
        ));
    }
    assert(head + (Seq::<char>::empty() + (middle + tail)) =~= head + middle + tail);
}

} // verus!
