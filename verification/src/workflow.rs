//! Workflows, their jobs, and the names that the jobs produce.
//!
//! A job without a matrix has one name: its template, resolved against the
//! empty assignment, or its key where it has no template. A job with a matrix
//! has one name per combination of the matrix: its template, resolved against
//! the combination, or its key followed by the combination's values in
//! brackets.

use crate::matrix::{expand_entries, Assignment, AssignmentView, Matrix, MatrixView};
use crate::template::{render, Template, TemplateError, TemplateErrorView};
use crate::text::join;
use vstd::prelude::*;
use vstd::string::*;

verus! {

/// The strategy of a job: its matrix.
#[derive(Debug)]
pub struct Strategy {
    /// The matrix whose combinations the job runs for.
    pub matrix: Matrix,
}

/// A job: an optional name template and an optional strategy.
#[derive(Debug)]
pub struct Job {
    /// The template of the job's names.
    pub name: Option<Template>,
    /// The strategy, which holds the job's matrix.
    pub strategy: Option<Strategy>,
}

/// A workflow: its jobs with their keys, in the order of declaration.
#[derive(Debug)]
pub struct Workflow {
    /// The jobs under their keys.
    pub jobs: Vec<(String, Job)>,
}

/// What a `Workflow` stands for: job keys with their jobs, in order.
pub type WorkflowView = Seq<(Seq<char>, JobView)>;

/// What a `Job` stands for.
pub struct JobView {
    /// The name template, where the job has one.
    pub name: Option<Seq<char>>,
    /// The matrix of the strategy, where the job has one.
    pub matrix: Option<MatrixView>,
}

impl View for Job {
    type V = JobView;

    open spec fn view(&self) -> JobView {
        JobView {
            name: match self.name {
                Some(template) => Some(template@),
                None => None,
            },
            matrix: match self.strategy {
                Some(strategy) => Some(strategy.matrix@),
                None => None,
            },
        }
    }
}

impl View for Workflow {
    type V = WorkflowView;

    open spec fn view(&self) -> WorkflowView {
        Seq::new(self.jobs@.len(), |i: int| (self.jobs@[i].0@, self.jobs@[i].1@))
    }
}

/// What the outcome of deriving names stands for.
pub open spec fn outcome_view(r: Result<Vec<String>, TemplateError>) -> Result<
    Seq<Seq<char>>,
    TemplateErrorView,
> {
    match r {
        Ok(names) => Ok(names.deep_view()),
        Err(e) => Err(e@),
    }
}

/// The values of an assignment, in order, without their paths.
pub open spec fn values(a: AssignmentView) -> Seq<Seq<char>> {
    Seq::new(a.len(), |i: int| a[i].1)
}

/// The name of a job without a template under one assignment: the key, a
/// space, and in round brackets the values, with a comma and a space between
/// each two.
pub open spec fn default_name(key: Seq<char>, a: AssignmentView) -> Seq<char> {
    key + seq![' ', '('] + join(values(a), seq![',', ' ']) + seq![')']
}

/// The default name under each of the assignments, in order.
pub open spec fn default_names(key: Seq<char>, all: Seq<AssignmentView>) -> Seq<Seq<char>> {
    Seq::new(all.len(), |i: int| default_name(key, all[i]))
}

/// The template resolved against each of the assignments, in order; the
/// error of the first assignment against which it cannot be resolved.
pub open spec fn render_all(template: Seq<char>, all: Seq<AssignmentView>) -> Result<
    Seq<Seq<char>>,
    TemplateErrorView,
>
    decreases all.len(),
{
    if all.len() == 0 {
        Ok(Seq::empty())
    } else {
        match render_all(template, all.drop_last()) {
            Err(e) => Err(e),
            Ok(names) => match render(template, all.last()) {
                Err(e) => Err(e),
                Ok(name) => Ok(names.push(name)),
            },
        }
    }
}

/// The names of one job.
pub open spec fn job_names(key: Seq<char>, job: JobView) -> Result<
    Seq<Seq<char>>,
    TemplateErrorView,
> {
    match (job.name, job.matrix) {
        (None, None) => Ok(seq![key]),
        (None, Some(matrix)) => Ok(default_names(key, expand_entries(matrix))),
        (Some(template), None) => match render(template, Seq::empty()) {
            Err(e) => Err(e),
            Ok(name) => Ok(seq![name]),
        },
        (Some(template), Some(matrix)) => render_all(template, expand_entries(matrix)),
    }
}

/// The names of all the jobs, in the order of the jobs; the error of the first
/// job that has one.
pub open spec fn workflow_names(jobs: WorkflowView) -> Result<
    Seq<Seq<char>>,
    TemplateErrorView,
>
    decreases jobs.len(),
{
    if jobs.len() == 0 {
        Ok(Seq::empty())
    } else {
        match workflow_names(jobs.drop_last()) {
            Err(e) => Err(e),
            Ok(names) => match job_names(jobs.last().0, jobs.last().1) {
                Err(e) => Err(e),
                Ok(more) => Ok(names + more),
            },
        }
    }
}

/// An error among the first `n` assignments is the error of them all.
pub proof fn lemma_render_all_error(
    template: Seq<char>,
    all: Seq<AssignmentView>,
    n: int,
)
    requires
        0 <= n <= all.len(),
        render_all(template, all.take(n)) is Err,
    ensures
        render_all(template, all) == render_all(template, all.take(n)),
    decreases all.len(),
{
    if n == all.len() {
        assert(all.take(n) =~= all);
    } else {
        assert(all.drop_last().take(n) =~= all.take(n));
        lemma_render_all_error(template, all.drop_last(), n);
    }
}

/// An error among the first `n` jobs is the error of them all.
pub proof fn lemma_workflow_names_error(jobs: WorkflowView, n: int)
    requires
        0 <= n <= jobs.len(),
        workflow_names(jobs.take(n)) is Err,
    ensures
        workflow_names(jobs) == workflow_names(jobs.take(n)),
    decreases jobs.len(),
{
    if n == jobs.len() {
        assert(jobs.take(n) =~= jobs);
    } else {
        assert(jobs.drop_last().take(n) =~= jobs.take(n));
        lemma_workflow_names_error(jobs.drop_last(), n);
    }
}

/// The name of a job without a template under one assignment.
pub fn default_name_of(key: &String, a: &Assignment) -> (r: String)
    ensures
        r@ == default_name(key@, a.deep_view()),
{
    let mut r = key.clone();
    r.push(' ');
    r.push('(');
    let ghost head = r@;
    let ghost vals = values(a.deep_view());
    let mut i: usize = 0;
    assert(vals.take(0) =~= Seq::<Seq<char>>::empty());
    assert(r@ =~= head + join(vals.take(0), seq![',', ' ']));
    while i < a.len()
        invariant
            i <= a.len(),
            vals == values(a.deep_view()),
            r@ == head + join(vals.take(i as int), seq![',', ' ']),
        decreases a.len() - i,
    {
        let ghost before = r@;
        if i > 0 {
            r.push(',');
            r.push(' ');
        }
        r.append(a[i].1.as_str());
        proof {
            let upto = vals.take(i + 1);
            assert(upto.drop_last() =~= vals.take(i as int));
            assert(upto.last() == a[i as int].1@);
            if i > 0 {
                assert(r@ =~= before + seq![',', ' '] + a[i as int].1@);
            }
            assert(r@ =~= head + join(upto, seq![',', ' ']));
        }
        i += 1;
    }
    assert(vals.take(a.len() as int) =~= vals);
    r.push(')');
    assert(r@ =~= default_name(key@, a.deep_view()));
    r
}

impl Job {
    /// The names that this job produces under the key `key`, in the order of
    /// its matrix's combinations. Fails, with no name, where its template
    /// cannot be resolved against one of them: the error is that of the first
    /// such combination.
    pub fn names(&self, key: &String) -> (r: Result<Vec<String>, TemplateError>)
        ensures
            outcome_view(r) == job_names(key@, self@),
    {
        let mut names: Vec<String> = Vec::new();
        match (&self.name, &self.strategy) {
            (None, None) => {
                names.push(key.clone());
                assert(names.deep_view() =~= seq![key@]);
            },
            (None, Some(strategy)) => {
                let all = strategy.matrix.expand();
                let mut i: usize = 0;
                while i < all.len()
                    invariant
                        i <= all.len(),
                        names.deep_view() == default_names(key@, all.deep_view()).take(i as int),
                    decreases all.len() - i,
                {
                    let ghost before = names.deep_view();
                    names.push(default_name_of(key, &all[i]));
                    assert(names.deep_view() =~= before.push(
                        default_name(key@, all.deep_view()[i as int]),
                    ));
                    assert(names.deep_view() =~= default_names(key@, all.deep_view()).take(i + 1));
                    i += 1;
                }
                assert(names.deep_view() =~= default_names(key@, all.deep_view()));
            },
            (Some(template), None) => {
                let empty: Assignment = Vec::new();
                assert(empty.deep_view() =~= AssignmentView::empty());
                match template.apply(&empty) {
                    Err(e) => {
                        return Err(e);
                    },
                    Ok(name) => {
                        names.push(name);
                        assert(names.deep_view() =~= seq![name@]);
                    },
                }
            },
            (Some(template), Some(strategy)) => {
                let all = strategy.matrix.expand();
                let mut i: usize = 0;
                assert(all.deep_view().take(0) =~= Seq::<AssignmentView>::empty());
                assert(names.deep_view() =~= Seq::<Seq<char>>::empty());
                while i < all.len()
                    invariant
                        i <= all.len(),
                        self.name == Some(*template),
                        self.strategy == Some(*strategy),
                        all.deep_view() == expand_entries(strategy.matrix@),
                        render_all(template@, all.deep_view().take(i as int)) == Ok::<
                            Seq<Seq<char>>,
                            TemplateErrorView,
                        >(names.deep_view()),
                    decreases all.len() - i,
                {
                    proof {
                        let upto = all.deep_view().take(i + 1);
                        assert(upto.drop_last() =~= all.deep_view().take(i as int));
                        assert(upto.last() == all[i as int].deep_view());
                    }
                    match template.apply(&all[i]) {
                        Err(e) => {
                            proof {
                                let upto = all.deep_view().take(i + 1);
                                assert(render_all(template@, upto) == Err::<
                                    Seq<Seq<char>>,
                                    TemplateErrorView,
                                >(e@));
                                lemma_render_all_error(template@, all.deep_view(), i + 1);
                            }
                            return Err(e);
                        },
                        Ok(name) => {
                            let ghost before = names.deep_view();
                            names.push(name);
                            assert(names.deep_view() =~= before.push(name@));
                        },
                    }
                    i += 1;
                }
                assert(all.deep_view().take(all.len() as int) =~= all.deep_view());
            },
        }
        Ok(names)
    }
}

impl Workflow {
    /// The names of all the jobs, in the order in which the jobs are declared
    /// and, within a job, in the order of its matrix's combinations. Fails,
    /// with no name, where a job fails: the error is that of the first such
    /// job.
    pub fn job_names(&self) -> (r: Result<Vec<String>, TemplateError>)
        ensures
            outcome_view(r) == workflow_names(self@),
    {
        let mut names: Vec<String> = Vec::new();
        let mut i: usize = 0;
        assert(self@.take(0) =~= Seq::<(Seq<char>, JobView)>::empty());
        assert(names.deep_view() =~= Seq::<Seq<char>>::empty());
        while i < self.jobs.len()
            invariant
                i <= self.jobs.len(),
                workflow_names(self@.take(i as int)) == Ok::<Seq<Seq<char>>, TemplateErrorView>(
                    names.deep_view(),
                ),
            decreases self.jobs.len() - i,
        {
            proof {
                let upto = self@.take(i + 1);
                assert(upto.drop_last() =~= self@.take(i as int));
                assert(upto.last() == (self.jobs@[i as int].0@, self.jobs@[i as int].1@));
            }
            match self.jobs[i].1.names(&self.jobs[i].0) {
                Err(e) => {
                    proof {
                        let upto = self@.take(i + 1);
                        assert(workflow_names(upto) == Err::<Seq<Seq<char>>, TemplateErrorView>(
                            e@,
                        ));
                        lemma_workflow_names_error(self@, i + 1);
                    }
                    return Err(e);
                },
                Ok(more) => {
                    let ghost before = names.deep_view();
                    let mut j: usize = 0;
                    while j < more.len()
                        invariant
                            j <= more.len(),
                            names.deep_view() == before + more.deep_view().take(j as int),
                        decreases more.len() - j,
                    {
                        let ghost prev = names.deep_view();
                        names.push(more[j].clone());
                        assert(names.deep_view() =~= prev.push(more.deep_view()[j as int]));
                        assert(names.deep_view() =~= before + more.deep_view().take(j + 1));
                        j += 1;
                    }
                    assert(more.deep_view().take(more.len() as int) =~= more.deep_view());
                },
            }
            i += 1;
        }
        assert(self@.take(self.jobs.len() as int) =~= self@);
        Ok(names)
    }
}

/// Where a template resolves against all the assignments, there is one name
/// per assignment, and each is the template resolved against its assignment.
/// It fails exactly when it fails against one of them.
pub proof fn lemma_render_all(template: Seq<char>, all: Seq<AssignmentView>)
    ensures
        render_all(template, all) matches Ok(names) ==> names.len() == all.len() && forall|
            i: int,
        |
            0 <= i < all.len() ==> render(template, #[trigger] all[i]) == Ok::<
                Seq<char>,
                TemplateErrorView,
            >(names[i]),
        render_all(template, all) is Err <==> exists|i: int|
            0 <= i < all.len() && render(template, #[trigger] all[i]) is Err,
    decreases all.len(),
{
    if all.len() > 0 {
        let before = all.drop_last();
        lemma_render_all(template, before);
        match render_all(template, before) {
            Err(e) => {
                let i = choose|i: int|
                    0 <= i < before.len() && render(template, #[trigger] before[i]) is Err;
                assert(before[i] == all[i]);
            },
            Ok(names) => {
                assert forall|i: int| 0 <= i < before.len() implies render(
                    template,
                    #[trigger] all[i],
                ) == Ok::<Seq<char>, TemplateErrorView>(names[i]) by {
                    assert(before[i] == all[i]);
                }
                if render(template, all.last()) is Err {
                    assert(all[all.len() - 1] == all.last());
                }
            },
        }
    }
}

/// A job without a template and without a strategy has one name, its key.
pub proof fn lemma_plain_job(key: Seq<char>)
    ensures
        job_names(key, JobView { name: None, matrix: None }) == Ok::<
            Seq<Seq<char>>,
            TemplateErrorView,
        >(seq![key]),
        workflow_names(seq![(key, JobView { name: None, matrix: None })]) == Ok::<
            Seq<Seq<char>>,
            TemplateErrorView,
        >(seq![key]),
{
    let jobs = seq![(key, JobView { name: None, matrix: None })];
    assert(jobs.drop_last() =~= Seq::<(Seq<char>, JobView)>::empty());
    assert(workflow_names(jobs.drop_last()) == Ok::<Seq<Seq<char>>, TemplateErrorView>(
        Seq::empty(),
    ));
    assert(Seq::<Seq<char>>::empty() + seq![key] =~= seq![key]);
}

/// A job with a matrix has as many names as the matrix has combinations,
/// where it has names at all; one without a matrix has one. A job without a
/// template always has names.
pub proof fn lemma_job_names_len(key: Seq<char>, job: JobView)
    ensures
        job_names(key, job) matches Ok(names) ==> names.len() == match job.matrix {
            Some(matrix) => expand_entries(matrix).len(),
            None => 1,
        },
        job.name is None ==> job_names(key, job) is Ok,
{
    match (job.name, job.matrix) {
        (Some(template), Some(matrix)) => {
            lemma_render_all(template, expand_entries(matrix));
        },
        _ => {},
    }
}

/// The names of a workflow are the names of its jobs, one job after the
/// other: with one more job, the names are those before and then the job's.
pub proof fn lemma_workflow_names_push(
    jobs: WorkflowView,
    key: Seq<char>,
    job: JobView,
)
    ensures
        workflow_names(jobs.push((key, job))) == match workflow_names(jobs) {
            Err(e) => Err::<Seq<Seq<char>>, TemplateErrorView>(e),
            Ok(names) => match job_names(key, job) {
                Err(e) => Err(e),
                Ok(more) => Ok(names + more),
            },
        },
{
    assert(jobs.push((key, job)).drop_last() =~= jobs);
}

/// A workflow has names exactly when each of its jobs has.
pub proof fn lemma_workflow_names_ok(jobs: WorkflowView)
    ensures
        workflow_names(jobs) is Ok <==> forall|i: int|
            0 <= i < jobs.len() ==> job_names((#[trigger] jobs[i]).0, jobs[i].1) is Ok,
    decreases jobs.len(),
{
    if jobs.len() > 0 {
        let before = jobs.drop_last();
        lemma_workflow_names_ok(before);
        if workflow_names(jobs) is Ok {
            assert forall|i: int| 0 <= i < jobs.len() implies job_names(
                (#[trigger] jobs[i]).0,
                jobs[i].1,
            ) is Ok by {
                if i < jobs.len() - 1 {
                    assert(before[i] == jobs[i]);
                }
            }
        } else if workflow_names(before) is Err {
            let i = choose|i: int|
                0 <= i < before.len() && !(job_names((#[trigger] before[i]).0, before[i].1) is Ok);
            assert(before[i] == jobs[i]);
        } else {
            assert(jobs[jobs.len() - 1] == jobs.last());
        }
    }
}

} // verus!
