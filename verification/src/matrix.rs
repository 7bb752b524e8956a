//! Strategy matrices and their expansion into assignments.
//!
//! A matrix is an ordered list of keys, each with a value that is a string, a
//! list of alternatives or a nested matrix. Expanding it gives every
//! combination of one alternative per key, the first key varying slowest. A
//! combination is an assignment: an ordered list of dotted paths with their
//! values.

use vstd::prelude::*;
use vstd::std_specs::convert::FromSpecImpl;
use vstd::std_specs::iter::IteratorSpec;
use vstd::string::*;

verus! {

/// One value of a matrix.
#[derive(Debug)]
pub enum MatrixValue {
    /// A single concrete value.
    String(String),
    /// Alternatives: each item gives one assignment.
    List(Vec<MatrixValue>),
    /// A nested matrix.
    Matrix(Matrix),
}

/// The keys of a matrix with their values, in the order of declaration. Keys
/// may repeat.
#[derive(Debug)]
pub struct Matrix(pub Vec<(String, MatrixValue)>);

/// One assignment: dotted paths with their values, in order.
pub type Assignment = Vec<(String, String)>;

/// What an `Assignment` stands for: paths with their values, in order.
pub type AssignmentView = Seq<(Seq<char>, Seq<char>)>;

/// What a `Matrix` stands for: keys with their values, in order.
pub type MatrixView = Seq<(Seq<char>, ValueView)>;

/// What a `MatrixValue` stands for.
pub enum ValueView {
    /// A single string.
    Leaf(Seq<char>),
    /// Alternatives.
    List(Seq<ValueView>),
    /// A nested matrix.
    Matrix(MatrixView),
}

impl View for MatrixValue {
    type V = ValueView;

    open spec fn view(&self) -> ValueView
        decreases self,
    {
        match self {
            MatrixValue::String(s) => ValueView::Leaf(s@),
            MatrixValue::List(items) => ValueView::List(
                Seq::new(
                    items@.len(),
                    |i: int|
                        if 0 <= i < items@.len() {
                            items@[i]@
                        } else {
                            ValueView::Leaf(Seq::empty())
                        },
                ),
            ),
            MatrixValue::Matrix(m) => ValueView::Matrix(m@),
        }
    }
}

impl View for Matrix {
    type V = MatrixView;

    open spec fn view(&self) -> MatrixView
        decreases self,
    {
        Seq::new(
            self.0@.len(),
            |i: int|
                if 0 <= i < self.0@.len() {
                    (self.0@[i].0@, self.0@[i].1@)
                } else {
                    (Seq::empty(), ValueView::Leaf(Seq::empty()))
                },
        )
    }
}

/// What a sequence of assignments holds.
pub open spec fn assignments_view(all: Seq<Assignment>) -> Seq<AssignmentView> {
    Seq::new(all.len(), |i: int| all[i].deep_view())
}

/// The path of a nested entry: the key alone where the inner path is empty,
/// else the key, a dot and the inner path.
pub open spec fn join_path(key: Seq<char>, path: Seq<char>) -> Seq<char> {
    if path.len() == 0 {
        key
    } else {
        key + seq!['.'] + path
    }
}

/// The assignment with `key` put before each of its paths.
pub open spec fn prefix_paths(key: Seq<char>, a: AssignmentView) -> AssignmentView {
    Seq::new(a.len(), |i: int| (join_path(key, a[i].0), a[i].1))
}

/// The assignments one after the other, as one.
pub open spec fn concat_all(xs: Seq<AssignmentView>) -> AssignmentView
    decreases xs.len(),
{
    if xs.len() == 0 {
        Seq::empty()
    } else {
        concat_all(xs.drop_last()) + xs.last()
    }
}

/// Each assignment of `l` with each of `r` behind it: those of `l` vary
/// slowest.
pub open spec fn product(
    l: Seq<AssignmentView>,
    r: Seq<AssignmentView>,
) -> Seq<AssignmentView>
    decreases l.len(),
{
    if l.len() == 0 {
        Seq::empty()
    } else {
        product(l.drop_last(), r) + Seq::new(r.len(), |j: int| l.last() + r[j])
    }
}

/// The assignments of a value, with paths relative to it: a string gives one
/// assignment with the empty path; a list gives one assignment per item, made
/// of everything the item expands to; a matrix gives its combinations.
pub open spec fn expand_value(v: ValueView) -> Seq<AssignmentView>
    decreases v, 0nat,
{
    match v {
        ValueView::Leaf(s) => seq![seq![(Seq::empty(), s)]],
        ValueView::List(items) => Seq::new(
            items.len(),
            |i: int|
                if 0 <= i < items.len() {
                    concat_all(expand_value(items[i]))
                } else {
                    Seq::empty()
                },
        ),
        ValueView::Matrix(entries) => expand_entries(entries),
    }
}

/// The assignments of one key of a matrix: those of its value, under the key.
pub open spec fn expand_entry(key: Seq<char>, value: ValueView) -> Seq<AssignmentView>
    decreases value, 1nat,
{
    let inner = expand_value(value);
    Seq::new(inner.len(), |i: int| prefix_paths(key, inner[i]))
}

/// The combinations of a matrix: none for the empty matrix, else one
/// alternative of each key, in the order of the keys, the first key varying
/// slowest.
pub open spec fn expand_entries(entries: MatrixView) -> Seq<AssignmentView>
    decreases entries, 0nat,
{
    if entries.len() == 0 {
        Seq::empty()
    } else if entries.len() == 1 {
        expand_entry(entries[0].0, entries[0].1)
    } else {
        product(
            expand_entries(entries.drop_last()),
            expand_entry(entries.last().0, entries.last().1),
        )
    }
}

/// A copy of an assignment.
pub fn clone_assignment(a: &Assignment) -> (r: Assignment)
    ensures
        r.deep_view() == a.deep_view(),
{
    let mut r: Assignment = Vec::new();
    let mut i: usize = 0;
    while i < a.len()
        invariant
            i <= a.len(),
            r.deep_view() == a.deep_view().take(i as int),
        decreases a.len() - i,
    {
        let ghost prev = r.deep_view();
        r.push((a[i].0.clone(), a[i].1.clone()));
        assert(r.deep_view() =~= prev.push(a.deep_view()[i as int]));
        assert(r.deep_view() =~= a.deep_view().take(i + 1));
        i += 1;
    }
    assert(r.deep_view() =~= a.deep_view());
    r
}

/// Appends a copy of each pair of `src` to `dst`.
pub fn extend_assignment(dst: &mut Assignment, src: &Assignment)
    ensures
        final(dst).deep_view() == old(dst).deep_view() + src.deep_view(),
{
    let mut i: usize = 0;
    while i < src.len()
        invariant
            i <= src.len(),
            dst.deep_view() == old(dst).deep_view() + src.deep_view().take(i as int),
        decreases src.len() - i,
    {
        let ghost prev = dst.deep_view();
        dst.push((src[i].0.clone(), src[i].1.clone()));
        assert(dst.deep_view() =~= prev.push(src.deep_view()[i as int]));
        assert(dst.deep_view() =~= old(dst).deep_view() + src.deep_view().take(i + 1));
        i += 1;
    }
    assert(src.deep_view().take(src.len() as int) =~= src.deep_view());
}

/// All the given assignments, one after the other, as one.
pub fn flatten(xs: &Vec<Assignment>) -> (r: Assignment)
    ensures
        r.deep_view() == concat_all(xs.deep_view()),
{
    let mut r: Assignment = Vec::new();
    let mut i: usize = 0;
    assert(r.deep_view() =~= concat_all(xs.deep_view().take(0)));
    while i < xs.len()
        invariant
            i <= xs.len(),
            r.deep_view() == concat_all(xs.deep_view().take(i as int)),
        decreases xs.len() - i,
    {
        extend_assignment(&mut r, &xs[i]);
        proof {
            let next = xs.deep_view().take(i + 1);
            assert(next.drop_last() =~= xs.deep_view().take(i as int));
            assert(next.last() == xs[i as int].deep_view());
        }
        i += 1;
    }
    assert(xs.deep_view().take(xs.len() as int) =~= xs.deep_view());
    r
}

/// Every assignment of `l` with every assignment of `r` behind it, those of `l`
/// varying slowest.
pub fn cross(l: &Vec<Assignment>, r: &Vec<Assignment>) -> (out: Vec<Assignment>)
    ensures
        out.deep_view() == product(l.deep_view(), r.deep_view()),
{
    let mut out: Vec<Assignment> = Vec::new();
    let mut i: usize = 0;
    assert(out.deep_view() =~= product(l.deep_view().take(0), r.deep_view()));
    while i < l.len()
        invariant
            i <= l.len(),
            out.deep_view() == product(l.deep_view().take(i as int), r.deep_view()),
        decreases l.len() - i,
    {
        let ghost before = out.deep_view();
        let ghost head = l[i as int].deep_view();
        let mut j: usize = 0;
        assert(out.deep_view() =~= before + Seq::new(0, |k: int| head + r.deep_view()[k]));
        while j < r.len()
            invariant
                i < l.len(),
                j <= r.len(),
                head == l[i as int].deep_view(),
                out.deep_view() == before + Seq::new(j as nat, |k: int| head + r.deep_view()[k]),
            decreases r.len() - j,
        {
            let mut both = clone_assignment(&l[i]);
            extend_assignment(&mut both, &r[j]);
            let ghost prev = out.deep_view();
            out.push(both);
            assert(out.deep_view() =~= prev.push(head + r.deep_view()[j as int]));
            assert(out.deep_view() =~= before + Seq::new(
                (j + 1) as nat,
                |k: int| head + r.deep_view()[k],
            ));
            j += 1;
        }
        proof {
            let next = l.deep_view().take(i + 1);
            assert(next.drop_last() =~= l.deep_view().take(i as int));
            assert(next.last() == head);
        }
        i += 1;
    }
    assert(l.deep_view().take(l.len() as int) =~= l.deep_view());
    out
}

/// The path `path` below `key`.
pub fn path_under(key: &String, path: &String) -> (r: String)
    ensures
        r@ == join_path(key@, path@),
{
    let mut r = key.clone();
    if !path.as_str().is_empty() {
        r.push('.');
        r.append(path.as_str());
    }
    r
}

/// The given assignments with `key` put before each path.
pub fn under_key(key: &String, inner: &Vec<Assignment>) -> (r: Vec<Assignment>)
    ensures
        r.deep_view() == Seq::new(
            inner.len() as nat,
            |i: int| prefix_paths(key@, inner.deep_view()[i]),
        ),
{
    let mut r: Vec<Assignment> = Vec::new();
    let mut i: usize = 0;
    while i < inner.len()
        invariant
            i <= inner.len(),
            r.deep_view() == Seq::new(i as nat, |k: int| prefix_paths(key@, inner.deep_view()[k])),
        decreases inner.len() - i,
    {
        let a = &inner[i];
        let mut b: Assignment = Vec::new();
        let mut j: usize = 0;
        while j < a.len()
            invariant
                j <= a.len(),
                b.deep_view() == prefix_paths(key@, a.deep_view()).take(j as int),
            decreases a.len() - j,
        {
            let ghost prev = b.deep_view();
            b.push((path_under(key, &a[j].0), a[j].1.clone()));
            assert(b.deep_view() =~= prev.push(prefix_paths(key@, a.deep_view())[j as int]));
            assert(b.deep_view() =~= prefix_paths(key@, a.deep_view()).take(j + 1));
            j += 1;
        }
        assert(b.deep_view() =~= prefix_paths(key@, a.deep_view()));
        let ghost prev = r.deep_view();
        r.push(b);
        assert(r.deep_view() =~= prev.push(prefix_paths(key@, inner.deep_view()[i as int])));
        assert(r.deep_view() =~= Seq::new(
            (i + 1) as nat,
            |k: int| prefix_paths(key@, inner.deep_view()[k]),
        ));
        i += 1;
    }
    r
}

impl MatrixValue {
    /// The assignments of this value, with paths relative to it.
    pub fn expand(&self) -> (r: Vec<Assignment>)
        ensures
            r.deep_view() == expand_value(self@),
        decreases self, 0nat,
    {
        match self {
            MatrixValue::String(v) => {
                let mut a: Assignment = Vec::new();
                a.push((String::new(), v.clone()));
                let mut r: Vec<Assignment> = Vec::new();
                r.push(a);
                assert(r.deep_view() =~~= expand_value(self@));
                r
            },
            MatrixValue::List(items) => {
                let mut r: Vec<Assignment> = Vec::new();
                let mut i: usize = 0;
                while i < items.len()
                    invariant
                        i <= items.len(),
                        self == MatrixValue::List(*items),
                        r.deep_view() == expand_value(self@).take(i as int),
                    decreases items.len() - i,
                {
                    let inner = items[i].expand();
                    let ghost prev = r.deep_view();
                    r.push(flatten(&inner));
                    assert(r.deep_view() =~= prev.push(concat_all(expand_value(items[i as int]@))));
                    assert(r.deep_view() =~= expand_value(self@).take(i + 1));
                    i += 1;
                }
                assert(r.deep_view() =~= expand_value(self@));
                r
            },
            MatrixValue::Matrix(m) => m.expand(),
        }
    }
}

impl Matrix {
    /// The combinations of this matrix: one alternative of each key, the first
    /// key varying slowest; none for the empty matrix.
    pub fn expand(&self) -> (r: Vec<Assignment>)
        ensures
            r.deep_view() == expand_entries(self@),
        decreases self, 0nat,
    {
        if self.0.len() == 0 {
            let r: Vec<Assignment> = Vec::new();
            assert(r.deep_view() =~= expand_entries(self@));
            return r;
        }
        let first = self.0[0].1.expand();
        let mut acc = under_key(&self.0[0].0, &first);
        proof {
            let one = self@.take(1);
            assert(acc.deep_view() =~= expand_entry(one[0].0, one[0].1));
        }
        let mut i: usize = 1;
        while i < self.0.len()
            invariant
                1 <= i <= self.0.len(),
                acc.deep_view() == expand_entries(self@.take(i as int)),
            decreases self.0.len() - i,
        {
            let inner = self.0[i].1.expand();
            let next = under_key(&self.0[i].0, &inner);
            acc = cross(&acc, &next);
            proof {
                let upto = self@.take(i + 1);
                assert(upto.drop_last() =~= self@.take(i as int));
                assert(upto.last() == self@[i as int]);
                assert(next.deep_view() =~= expand_entry(upto.last().0, upto.last().1));
            }
            i += 1;
        }
        assert(self@.take(self.0.len() as int) =~= self@);
        acc
    }
}

impl IntoIterator for MatrixValue {
    type Item = Assignment;

    type IntoIter = std::vec::IntoIter<Assignment>;

    /// Iterates over the assignments of this value, in the order of `expand`.
    fn into_iter(self) -> (r: Self::IntoIter)
        ensures
            assignments_view(r.remaining()) == expand_value(self@),
    {
        let all = self.expand();
        assert(assignments_view(all@) =~= all.deep_view());
        all.into_iter()
    }
}

impl IntoIterator for Matrix {
    type Item = Assignment;

    type IntoIter = std::vec::IntoIter<Assignment>;

    /// Iterates over the combinations of this matrix, in the order of `expand`.
    fn into_iter(self) -> (r: Self::IntoIter)
        ensures
            assignments_view(r.remaining()) == expand_entries(self@),
    {
        let all = self.expand();
        assert(assignments_view(all@) =~= all.deep_view());
        all.into_iter()
    }
}

impl Default for Matrix {
    /// The matrix without keys.
    fn default() -> (r: Self)
        ensures
            r@ == Seq::<(Seq<char>, ValueView)>::empty(),
    {
        let r = Matrix(Vec::new());
        assert(r@ =~= Seq::<(Seq<char>, ValueView)>::empty());
        r
    }
}

impl std::ops::Deref for Matrix {
    type Target = Vec<(String, MatrixValue)>;

    /// The entries of the matrix.
    fn deref(&self) -> (r: &Self::Target)
        ensures
            *r == self.0,
    {
        &self.0
    }
}

impl From<Vec<(String, MatrixValue)>> for Matrix {
    fn from(matrix: Vec<(String, MatrixValue)>) -> (r: Self) {
        Matrix(matrix)
    }
}

impl FromSpecImpl<Vec<(String, MatrixValue)>> for Matrix {
    open spec fn obeys_from_spec() -> bool {
        true
    }

    open spec fn from_spec(matrix: Vec<(String, MatrixValue)>) -> Self {
        Matrix(matrix)
    }
}

impl From<Matrix> for MatrixValue {
    fn from(matrix: Matrix) -> (r: Self) {
        MatrixValue::Matrix(matrix)
    }
}

impl FromSpecImpl<Matrix> for MatrixValue {
    open spec fn obeys_from_spec() -> bool {
        true
    }

    open spec fn from_spec(matrix: Matrix) -> Self {
        MatrixValue::Matrix(matrix)
    }
}

impl From<Vec<MatrixValue>> for MatrixValue {
    fn from(list: Vec<MatrixValue>) -> (r: Self) {
        MatrixValue::List(list)
    }
}

impl FromSpecImpl<Vec<MatrixValue>> for MatrixValue {
    open spec fn obeys_from_spec() -> bool {
        true
    }

    open spec fn from_spec(list: Vec<MatrixValue>) -> Self {
        MatrixValue::List(list)
    }
}

impl From<String> for MatrixValue {
    fn from(value: String) -> (r: Self) {
        MatrixValue::String(value)
    }
}

impl FromSpecImpl<String> for MatrixValue {
    open spec fn obeys_from_spec() -> bool {
        true
    }

    open spec fn from_spec(value: String) -> Self {
        MatrixValue::String(value)
    }
}

impl<'a> From<&'a str> for MatrixValue {
    fn from(value: &'a str) -> (r: Self)
        ensures
            r@ == ValueView::Leaf(value@),
    {
        MatrixValue::String(value.to_owned())
    }
}

impl<'a> FromSpecImpl<&'a str> for MatrixValue {
    open spec fn obeys_from_spec() -> bool {
        false
    }

    open spec fn from_spec(value: &'a str) -> Self {
        arbitrary()
    }
}

/// A product has one assignment for each pair of an assignment of `l` and one
/// of `r`.
pub proof fn lemma_product_len(
    l: Seq<AssignmentView>,
    r: Seq<AssignmentView>,
)
    ensures
        product(l, r).len() == l.len() * r.len(),
    decreases l.len(),
{
    if l.len() > 0 {
        lemma_product_len(l.drop_last(), r);
        assert((l.len() - 1) * r.len() + r.len() == l.len() * r.len()) by (nonlinear_arith);
    } else {
        assert(0 * r.len() == 0) by (nonlinear_arith);
    }
}

/// In a product the left side varies slowest: the assignment at index
/// `i * r.len() + j` is the `i`-th of `l` followed by the `j`-th of `r`.
pub proof fn lemma_product_index(
    l: Seq<AssignmentView>,
    r: Seq<AssignmentView>,
    i: int,
    j: int,
)
    requires
        0 <= i < l.len(),
        0 <= j < r.len(),
    ensures
        0 <= i * r.len() + j < product(l, r).len(),
        product(l, r)[i * r.len() + j] == l[i] + r[j],
    decreases l.len(),
{
    let n = r.len() as int;
    let m = l.len() as int;
    lemma_product_len(l, r);
    lemma_product_len(l.drop_last(), r);
    assert(0 <= i * n) by (nonlinear_arith)
        requires
            0 <= i,
            0 <= n,
    ;
    assert(i * n + n <= m * n) by (nonlinear_arith)
        requires
            0 <= i < m,
            0 <= n,
    ;
    if i < m - 1 {
        assert(i * n + n <= (m - 1) * n) by (nonlinear_arith)
            requires
                0 <= i < m - 1,
                0 <= n,
        ;
        lemma_product_index(l.drop_last(), r, i, j);
    } else {
        assert(i * n == (m - 1) * n);
    }
}

/// The empty matrix has no combination.
pub proof fn lemma_empty_matrix()
    ensures
        expand_entries(Seq::empty()) == Seq::<AssignmentView>::empty(),
{
}

/// A matrix with one more key has the combinations of the matrix before,
/// each with each alternative of the new key behind it.
pub proof fn lemma_expand_entries_push(
    entries: MatrixView,
    key: Seq<char>,
    value: ValueView,
)
    requires
        entries.len() > 0,
    ensures
        expand_entries(entries.push((key, value))) == product(
            expand_entries(entries),
            expand_entry(key, value),
        ),
{
    let more = entries.push((key, value));
    assert(more.drop_last() =~= entries);
}

/// The first key varies slowest: in a matrix with one more key, the
/// combination at index `i * n + j`, where `n` is the number of alternatives
/// of the new key, is the `i`-th combination of the matrix before followed by
/// the `j`-th alternative of the new key.
pub proof fn lemma_first_key_varies_slowest(
    entries: MatrixView,
    key: Seq<char>,
    value: ValueView,
    i: int,
    j: int,
)
    requires
        entries.len() > 0,
        0 <= i < expand_entries(entries).len(),
        0 <= j < expand_entry(key, value).len(),
    ensures
        expand_entries(entries.push((key, value))).len() == expand_entries(entries).len()
            * expand_entry(key, value).len(),
        expand_entries(entries.push((key, value)))[i * expand_entry(key, value).len() + j]
            == expand_entries(entries)[i] + expand_entry(key, value)[j],
{
    lemma_expand_entries_push(entries, key, value);
    lemma_product_len(expand_entries(entries), expand_entry(key, value));
    lemma_product_index(expand_entries(entries), expand_entry(key, value), i, j);
}

/// A key whose value is a list of strings has one assignment per string,
/// in the order of the list, each with the key as its path.
pub proof fn lemma_list_of_strings(key: Seq<char>, items: Seq<Seq<char>>)
    ensures
        expand_entry(key, ValueView::List(Seq::new(items.len(), |i: int| ValueView::Leaf(items[i]))))
            == Seq::new(items.len(), |i: int| seq![(key, items[i])]),
        expand_entries(
            seq![(key, ValueView::List(Seq::new(items.len(), |i: int| ValueView::Leaf(items[i]))))],
        ) == Seq::new(items.len(), |i: int| seq![(key, items[i])]),
{
    let list = Seq::new(items.len(), |i: int| ValueView::Leaf(items[i]));
    let inner = expand_value(ValueView::List(list));
    assert forall|i: int| 0 <= i < items.len() implies #[trigger] inner[i] == seq![
        (Seq::<char>::empty(), items[i]),
    ] by {
        let one = expand_value(list[i]);
        assert(one == seq![seq![(Seq::<char>::empty(), items[i])]]);
        assert(one.drop_last() =~= Seq::<AssignmentView>::empty());
        assert(concat_all(one.drop_last()) =~= Seq::<(Seq<char>, Seq<char>)>::empty());
        assert(concat_all(one) =~= one.last());
    }
    assert forall|i: int| 0 <= i < items.len() implies #[trigger] prefix_paths(key, inner[i])
        == seq![(key, items[i])] by {
        assert(prefix_paths(key, inner[i]) =~= seq![(key, items[i])]);
    }
    assert(expand_entry(key, ValueView::List(list)) =~= Seq::new(
        items.len(),
        |i: int| seq![(key, items[i])],
    ));
}

/// A key with a list of two strings has two assignments, one per string: the
/// list is no product.
pub proof fn lemma_list_of_two(key: Seq<char>, x: Seq<char>, y: Seq<char>)
    ensures
        expand_entries(seq![(key, ValueView::List(seq![ValueView::Leaf(x), ValueView::Leaf(y)]))])
            == seq![seq![(key, x)], seq![(key, y)]],
{
    lemma_list_of_strings(key, seq![x, y]);
    assert(seq![ValueView::Leaf(x), ValueView::Leaf(y)] =~= Seq::new(
        seq![x, y].len(),
        |i: int| ValueView::Leaf(seq![x, y][i]),
    ));
    assert(Seq::new(seq![x, y].len(), |i: int| seq![(key, seq![x, y][i])]) =~= seq![
        seq![(key, x)],
        seq![(key, y)],
    ]);
}

/// A list has one assignment per item, whatever the items are.
pub proof fn lemma_list_len(items: Seq<ValueView>)
    ensures
        expand_value(ValueView::List(items)).len() == items.len(),
{
}

/// Two keys with two alternatives each: the four combinations come with the
/// first key varying slowest.
pub proof fn lemma_two_by_two(
    k1: Seq<char>,
    a: Seq<char>,
    b: Seq<char>,
    k2: Seq<char>,
    c: Seq<char>,
    d: Seq<char>,
)
    ensures
        expand_entries(
            seq![
                (k1, ValueView::List(seq![ValueView::Leaf(a), ValueView::Leaf(b)])),
                (k2, ValueView::List(seq![ValueView::Leaf(c), ValueView::Leaf(d)])),
            ],
        ) == seq![
            seq![(k1, a), (k2, c)],
            seq![(k1, a), (k2, d)],
            seq![(k1, b), (k2, c)],
            seq![(k1, b), (k2, d)],
        ],
{
    let v1 = ValueView::List(seq![ValueView::Leaf(a), ValueView::Leaf(b)]);
    let v2 = ValueView::List(seq![ValueView::Leaf(c), ValueView::Leaf(d)]);
    let first = seq![(k1, v1)];
    let both = seq![(k1, v1), (k2, v2)];
    assert(both =~= first.push((k2, v2)));
    lemma_list_of_strings(k1, seq![a, b]);
    lemma_list_of_strings(k2, seq![c, d]);
    assert(seq![ValueView::Leaf(a), ValueView::Leaf(b)] =~= Seq::new(
        seq![a, b].len(),
        |i: int| ValueView::Leaf(seq![a, b][i]),
    ));
    assert(seq![ValueView::Leaf(c), ValueView::Leaf(d)] =~= Seq::new(
        seq![c, d].len(),
        |i: int| ValueView::Leaf(seq![c, d][i]),
    ));
    let l = expand_entry(k1, v1);
    let r = expand_entry(k2, v2);
    assert(l =~= seq![seq![(k1, a)], seq![(k1, b)]]);
    assert(r =~= seq![seq![(k2, c)], seq![(k2, d)]]);
    assert(expand_entries(first) == l);
    lemma_expand_entries_push(first, k2, v2);
    lemma_product_len(l, r);
    lemma_product_index(l, r, 0, 0);
    lemma_product_index(l, r, 0, 1);
    lemma_product_index(l, r, 1, 0);
    lemma_product_index(l, r, 1, 1);
    let all = product(l, r);
    assert(all.len() == 4) by {
        assert(l.len() * r.len() == 4) by (nonlinear_arith)
            requires
                l.len() == 2,
                r.len() == 2,
        ;
    }
    assert(all[0] =~= seq![(k1, a), (k2, c)]);
    assert(all[1] =~= seq![(k1, a), (k2, d)]);
    assert(all[2] =~= seq![(k1, b), (k2, c)]);
    assert(all[3] =~= seq![(k1, b), (k2, d)]);
    assert(all =~= seq![
        seq![(k1, a), (k2, c)],
        seq![(k1, a), (k2, d)],
        seq![(k1, b), (k2, c)],
        seq![(k1, b), (k2, d)],
    ]);
}

/// The paths of a nested matrix are its own paths below the outer key: with
/// two inner keys that hold strings, the one combination has the paths
/// `outer.k1` and `outer.k2`.
pub proof fn lemma_nested_paths(
    outer: Seq<char>,
    k1: Seq<char>,
    x: Seq<char>,
    k2: Seq<char>,
    y: Seq<char>,
)
    ensures
        expand_entries(
            seq![
                (
                    outer,
                    ValueView::Matrix(seq![(k1, ValueView::Leaf(x)), (k2, ValueView::Leaf(y))]),
                ),
            ],
        ) == seq![seq![(join_path(outer, k1), x), (join_path(outer, k2), y)]],
        k1.len() > 0 ==> join_path(outer, k1) == outer + seq!['.'] + k1,
        k2.len() > 0 ==> join_path(outer, k2) == outer + seq!['.'] + k2,
{
    let inner = seq![(k1, ValueView::Leaf(x)), (k2, ValueView::Leaf(y))];
    let first = seq![(k1, ValueView::Leaf(x))];
    assert(inner =~= first.push((k2, ValueView::Leaf(y))));
    let l = expand_entry(k1, ValueView::Leaf(x));
    let r = expand_entry(k2, ValueView::Leaf(y));
    assert(l =~= seq![seq![(k1, x)]]) by {
        assert(prefix_paths(k1, seq![(Seq::<char>::empty(), x)]) =~= seq![(k1, x)]);
    }
    assert(r =~= seq![seq![(k2, y)]]) by {
        assert(prefix_paths(k2, seq![(Seq::<char>::empty(), y)]) =~= seq![(k2, y)]);
    }
    assert(expand_entries(first) == l);
    lemma_expand_entries_push(first, k2, ValueView::Leaf(y));
    lemma_product_len(l, r);
    lemma_product_index(l, r, 0, 0);
    let all = expand_entries(inner);
    assert(all.len() == 1) by {
        assert(l.len() * r.len() == 1) by (nonlinear_arith)
            requires
                l.len() == 1,
                r.len() == 1,
        ;
    }
    assert(all[0] =~= seq![(k1, x), (k2, y)]);
    assert(all =~= seq![seq![(k1, x), (k2, y)]]);
    let value = ValueView::Matrix(inner);
    assert(expand_value(value) == all);
    let outside = expand_entry(outer, value);
    assert(outside[0] =~= seq![(join_path(outer, k1), x), (join_path(outer, k2), y)]);
    assert(outside =~= seq![seq![(join_path(outer, k1), x), (join_path(outer, k2), y)]]);
}

} // verus!
