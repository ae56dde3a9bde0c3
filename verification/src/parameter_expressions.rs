//! The node that evaluates a fixed list of parameter expressions: its declared parameters,
//! their validation, and the types it resolves.

use vstd::prelude::*;

use crate::collections::{NameSet, name_set_contents};
use crate::data_tree::{DataTree, TreeView};
use crate::program_node::CallInputError;
use crate::tensor::{DType, DTypeLike, Dim, TensorType, copy_dims, type_views};
use crate::text::push_str;

verus! {

/// An atomic parameter, known by its full name.
#[derive(Debug, Clone, PartialEq, Eq)]
pub struct Symbol {
    pub name: String,
}

impl Symbol {
    /// A parameter of its own, named `name`.
    pub fn standalone(name: String) -> (s: Self)
        ensures
            s.name@ == name@,
    {
        Symbol { name }
    }

    /// The parameter's name.
    pub fn name(&self) -> (name: &str)
        ensures
            name@ == self.name@,
    {
        self.name.as_str()
    }

    /// The parameter's full name.
    pub fn fullname(&self) -> (name: &str)
        ensures
            name@ == self.name@,
    {
        self.name.as_str()
    }
}

/// What the node reads of an expression: the atomic parameters it references, in order.
#[derive(Debug, Clone, PartialEq, Eq)]
pub struct ParameterExpression {
    pub symbols: Vec<Symbol>,
}

impl ParameterExpression {
    /// The expression that is just `symbol`.
    pub fn from_symbol(symbol: Symbol) -> (e: Self)
        ensures
            e.symbols@ == seq![symbol],
    {
        let mut symbols = Vec::new();
        symbols.push(symbol);
        assert(symbols@ =~= seq![symbol]);
        ParameterExpression { symbols }
    }

    /// The atomic parameters the expression references.
    pub fn iter_symbols(&self) -> (symbols: &[Symbol])
        ensures
            symbols@ == self.symbols@,
    {
        self.symbols.as_slice()
    }
}

/// Errors returned when constructing a [`ParameterExpressions`] node.
#[derive(Debug, PartialEq, Eq)]
pub enum ParameterExpressionsBuildError {
    /// The same parameter was declared more than once, so its input column would be ambiguous.
    DuplicateParameter { name: String },
    /// Expression `index` references a parameter that was not declared.
    UndeclaredParameter { index: usize, name: String },
}

/// Errors returned when resolving the types of a [`ParameterExpressions`] node.
#[derive(Debug, PartialEq, Eq)]
pub enum ParameterExpressionsError {
    /// The input did not match the single input leaf.
    Input(CallInputError),
    /// The input type did not have dtype `F64`.
    WrongDType { dtype: DTypeLike },
    /// The input type did not have the right trailing (parameter-count) axis.
    WrongShape { shape: Vec<Dim>, expected: usize },
    /// The input type had no axes at all.
    EmptyShape,
}

/// A node that evaluates a fixed list of parameter expressions from values given for its
/// declared parameters.
///
/// Input: one broadcastable `F64` tensor of shape `[..., num_parameters]`, the trailing axis
/// holding a value for each declared parameter, in declaration order. Output: one broadcastable
/// `F64` tensor of shape `[..., num_expressions]`, with the same batch prefix.
pub struct ParameterExpressions {
    expressions: Vec<ParameterExpression>,
    parameters: Vec<Symbol>,
}

/// The names of `symbols`.
pub open spec fn symbol_names(symbols: Seq<Symbol>) -> Seq<Seq<char>> {
    Seq::new(symbols.len(), |i: int| symbols[i].name@)
}

/// The first of the first `m` names that repeats an earlier one.
pub open spec fn first_repeat(names: Seq<Seq<char>>, m: nat) -> Option<nat>
    decreases m,
{
    if m == 0 {
        None
    } else {
        match first_repeat(names, (m - 1) as nat) {
            Some(k) => Some(k),
            None => if names.take(m - 1).contains(names[m - 1]) { Some((m - 1) as nat) } else { None },
        }
    }
}

/// The first of the first `m` names of `symbols` that `declared` does not hold.
pub open spec fn first_missing(symbols: Seq<Seq<char>>, declared: Set<Seq<char>>, m: nat) -> Option<nat>
    decreases m,
{
    if m == 0 {
        None
    } else {
        match first_missing(symbols, declared, (m - 1) as nat) {
            Some(j) => Some(j),
            None => if declared.contains(symbols[m - 1]) { None } else { Some((m - 1) as nat) },
        }
    }
}

/// The first of the first `m` expressions referencing a parameter that `declared` does not
/// hold, with that parameter's position among its references.
pub open spec fn first_undeclared(expressions: Seq<ParameterExpression>, declared: Set<Seq<char>>, m: nat) -> Option<(nat, nat)>
    decreases m,
{
    if m == 0 {
        None
    } else {
        match first_undeclared(expressions, declared, (m - 1) as nat) {
            Some(found) => Some(found),
            None => {
                let symbols = symbol_names(expressions[m - 1].symbols@);
                match first_missing(symbols, declared, symbols.len()) {
                    Some(j) => Some(((m - 1) as nat, j)),
                    None => None,
                }
            },
        }
    }
}

/// What validating `expressions` against `parameters` comes to: a repeated declaration first,
/// then the first reference to an undeclared parameter, else success.
pub open spec fn validation(expressions: Seq<ParameterExpression>, parameters: Seq<Symbol>) -> Result<(), (Option<nat>, Seq<char>)> {
    let names = symbol_names(parameters);
    match first_repeat(names, names.len()) {
        Some(k) => Err((None, names[k as int])),
        None => match first_undeclared(expressions, names.to_set(), expressions.len()) {
            Some((i, j)) => Err((Some(i), symbol_names(expressions[i as int].symbols@)[j as int])),
            None => Ok(()),
        },
    }
}

/// Whether `e` is the build error `v` describes: a repeated declaration of a name, or an
/// undeclared name referenced by an expression.
pub open spec fn reports_build_error(e: ParameterExpressionsBuildError, v: (Option<nat>, Seq<char>)) -> bool {
    match v.0 {
        None => e matches ParameterExpressionsBuildError::DuplicateParameter { name } && name@ == v.1,
        Some(i) => e matches ParameterExpressionsBuildError::UndeclaredParameter { index, name } && index == i && name@ == v.1,
    }
}

/// A once-seen name repeats the earlier names exactly when they hold it.
proof fn lemma_first_repeat_step(names: Seq<Seq<char>>, m: nat)
    requires
        m < names.len(),
        first_repeat(names, m) is None,
    ensures
        first_repeat(names, m + 1) == (if names.take(m as int).contains(names[m as int]) { Some(m) } else { None }),
{
}

/// Once found, the first repeat stays the first.
proof fn lemma_first_repeat_stays(names: Seq<Seq<char>>, k: nat, m: nat)
    requires
        first_repeat(names, k) is Some,
        k <= m,
    ensures
        first_repeat(names, m) == first_repeat(names, k),
    decreases m,
{
    if m > k {
        lemma_first_repeat_stays(names, k, (m - 1) as nat);
    }
}

/// Once found, the first missing name stays the first.
pub proof fn lemma_first_missing_stays(symbols: Seq<Seq<char>>, declared: Set<Seq<char>>, k: nat, m: nat)
    requires
        first_missing(symbols, declared, k) is Some,
        k <= m,
    ensures
        first_missing(symbols, declared, m) == first_missing(symbols, declared, k),
    decreases m,
{
    if m > k {
        lemma_first_missing_stays(symbols, declared, k, (m - 1) as nat);
    }
}

/// Once found, the first undeclared reference stays the first.
pub proof fn lemma_first_undeclared_stays(expressions: Seq<ParameterExpression>, declared: Set<Seq<char>>, k: nat, m: nat)
    requires
        first_undeclared(expressions, declared, k) is Some,
        k <= m,
    ensures
        first_undeclared(expressions, declared, m) == first_undeclared(expressions, declared, k),
    decreases m,
{
    if m > k {
        lemma_first_undeclared_stays(expressions, declared, k, (m - 1) as nat);
    }
}

/// The set of the first `k + 1` names is that of the first `k`, and one more.
pub proof fn lemma_take_to_set_step(names: Seq<Seq<char>>, k: int)
    requires
        0 <= k < names.len(),
    ensures
        names.take(k + 1).to_set() == names.take(k).to_set().insert(names[k]),
{
    let t = names.take(k);
    assert(names.take(k + 1) =~= t.push(names[k]));
    assert forall|s: Seq<char>| names.take(k + 1).to_set().contains(s) == t.to_set().insert(names[k]).contains(s) by {
        if t.push(names[k]).contains(s) {
            let j = choose|j: int| 0 <= j < t.push(names[k]).len() && t.push(names[k])[j] == s;
            if j < t.len() {
                assert(t[j] == s);
            }
        }
        if t.contains(s) {
            let j = choose|j: int| 0 <= j < t.len() && t[j] == s;
            assert(t.push(names[k])[j] == s);
        }
        if s == names[k] {
            assert(t.push(names[k])[t.len() as int] == s);
        }
    }
    assert(names.take(k + 1).to_set() =~= t.to_set().insert(names[k]));
}

impl ParameterExpressions {
    /// Check that `parameters` declares each of its entries once, and that it covers every
    /// parameter referenced by `expressions`.
    fn validate(expressions: &[ParameterExpression], parameters: &[Symbol]) -> (res: Result<(), ParameterExpressionsBuildError>)
        ensures
            match validation(expressions@, parameters@) {
                Ok(()) => res is Ok,
                Err(v) => res matches Err(e) && reports_build_error(e, v),
            },
    {
        let ghost names = symbol_names(parameters@);
        let mut declared = NameSet::new();
        for k in 0..parameters.len()
            invariant
                names == symbol_names(parameters@),
                first_repeat(names, k as nat) is None,
                name_set_contents(declared) == names.take(k as int).to_set(),
        {
            let parameter = &parameters[k];
            proof {
                lemma_first_repeat_step(names, k as nat);
                assert(names[k as int] == parameter.name@);
            }
            if !declared.insert(parameter.name.clone()) {
                proof {
                    assert(names.take(k as int).contains(names[k as int]));
                    lemma_first_repeat_stays(names, (k + 1) as nat, names.len());
                }
                return Err(ParameterExpressionsBuildError::DuplicateParameter { name: parameter.name.clone() });
            }
            proof {
                lemma_take_to_set_step(names, k as int);
            }
        }
        let ghost declared_set = name_set_contents(declared);
        proof {
            assert(names.take(parameters.len() as int) =~= names);
        }
        for index in 0..expressions.len()
            invariant
                names == symbol_names(parameters@),
                first_repeat(names, names.len()) is None,
                declared_set == names.to_set(),
                name_set_contents(declared) == declared_set,
                first_undeclared(expressions@, declared_set, index as nat) is None,
        {
            let symbols = expressions[index].iter_symbols();
            let ghost sym_names = symbol_names(expressions@[index as int].symbols@);
            for j in 0..symbols.len()
                invariant
                    index < expressions@.len(),
                    symbols@ == expressions@[index as int].symbols@,
                    sym_names == symbol_names(symbols@),
                    first_missing(sym_names, declared_set, j as nat) is None,
                    first_undeclared(expressions@, declared_set, index as nat) is None,
                    name_set_contents(declared) == declared_set,
                    declared_set == names.to_set(),
                    names == symbol_names(parameters@),
                    first_repeat(names, names.len()) is None,
            {
                let symbol = &symbols[j];
                assert(sym_names[j as int] == symbol.name@);
                if !declared.contains(symbol.name.as_str()) {
                    proof {
                        lemma_first_missing_stays(sym_names, declared_set, (j + 1) as nat, sym_names.len());
                        lemma_first_undeclared_stays(expressions@, declared_set, (index + 1) as nat, expressions@.len());
                    }
                    return Err(ParameterExpressionsBuildError::UndeclaredParameter { index, name: symbol.name.clone() });
                }
            }
        }
        Ok(())
    }

    /// A node evaluating `expressions` from values given for `parameters`, in that order.
    ///
    /// `parameters` must declare each parameter once and every parameter the expressions
    /// reference; it may declare others, whose values are then ignored.
    pub fn new(expressions: Vec<ParameterExpression>, parameters: Vec<Symbol>) -> (res: Result<Self, ParameterExpressionsBuildError>)
        ensures
            match validation(expressions@, parameters@) {
                Ok(()) => res matches Ok(node) && node.expressions_spec() == expressions@ && node.parameters_spec() == parameters@,
                Err(v) => res matches Err(e) && reports_build_error(e, v),
            },
    {
        match Self::validate(expressions.as_slice(), parameters.as_slice()) {
            Ok(()) => Ok(ParameterExpressions { expressions, parameters }),
            Err(e) => Err(e),
        }
    }

    /// The expressions, as the spec sees them.
    pub closed spec fn expressions_spec(&self) -> Seq<ParameterExpression> {
        self.expressions@
    }

    /// The declared parameters, as the spec sees them.
    pub closed spec fn parameters_spec(&self) -> Seq<Symbol> {
        self.parameters@
    }

    /// The expressions this node evaluates, in output order.
    pub fn expressions(&self) -> (expressions: &[ParameterExpression])
        ensures
            expressions@ == self.expressions_spec(),
    {
        self.expressions.as_slice()
    }

    /// The declared parameters, in the order input values are read for them.
    pub fn parameters(&self) -> (parameters: &[Symbol])
        ensures
            parameters@ == self.parameters_spec(),
    {
        self.parameters.as_slice()
    }

    /// The number of declared parameters: the input's trailing axis size.
    pub fn num_parameters(&self) -> (n: usize)
        ensures
            n == self.parameters_spec().len(),
    {
        self.parameters.len()
    }

    /// The number of expressions: the output's trailing axis size.
    pub fn num_expressions(&self) -> (n: usize)
        ensures
            n == self.expressions_spec().len(),
    {
        self.expressions.len()
    }

    /// The node's name.
    pub fn name(&self) -> (name: &str)
        ensures
            name@ == "parameter_expressions"@,
    {
        "parameter_expressions"
    }

    /// The namespace the node belongs to.
    pub fn namespace(&self) -> (namespace: &str)
        ensures
            namespace@ == "qiskit"@,
    {
        "qiskit"
    }

    /// The namespace and name as one string.
    pub fn full_name(&self) -> (full: String)
        ensures
            full@ == "qiskit"@ + "."@ + "parameter_expressions"@,
    {
        let mut full = String::new();
        push_str(&mut full, self.namespace());
        push_str(&mut full, ".");
        push_str(&mut full, self.name());
        full
    }

    /// The input: one `F64` leaf whose trailing axis has one entry per parameter.
    pub fn input_types(&self) -> (types: DataTree<TensorType>)
        ensures
            types@ matches TreeView::Leaf(t) && t@ == f64_vector(self.parameters_spec().len() as usize),
    {
        DataTree::new_leaf(f64_vector_type(self.parameters.len()))
    }

    /// The output: one `F64` leaf whose trailing axis has one entry per expression.
    pub fn output_types(&self) -> (types: DataTree<TensorType>)
        ensures
            types@ matches TreeView::Leaf(t) && t@ == f64_vector(self.expressions_spec().len() as usize),
    {
        DataTree::new_leaf(f64_vector_type(self.expressions.len()))
    }

    /// Resolve the output type from the input's batch prefix.
    ///
    /// The single input type must be `F64` with a trailing axis equal to the number of
    /// parameters (a named trailing axis is accepted as is); the axes before it are a batch
    /// prefix, put in front of the output's axis `[num_expressions]`.
    pub fn resolve_types_flat(&self, input_types: &[TensorType]) -> (res: Result<Vec<TensorType>, ParameterExpressionsError>)
        ensures
            input_types@.len() != 1 ==> res == Err::<Vec<TensorType>, ParameterExpressionsError>(
                ParameterExpressionsError::Input(CallInputError::WrongArity { expected: 1, actual: input_types@.len() as usize })),
            input_types@.len() == 1 ==> {
                let t = input_types@[0]@;
                let n = self.parameters_spec().len();
                if !(t.0 matches DTypeLike::Concrete(DType::F64)) {
                    res == Err::<Vec<TensorType>, ParameterExpressionsError>(ParameterExpressionsError::WrongDType { dtype: t.0 })
                } else if t.1.len() == 0 {
                    res == Err::<Vec<TensorType>, ParameterExpressionsError>(ParameterExpressionsError::EmptyShape)
                } else if t.1.last() matches Dim::Fixed(k) && k != n {
                    res matches Err(ParameterExpressionsError::WrongShape { shape, expected }) && shape@ == t.1 && expected == n
                } else {
                    res matches Ok(out) && type_views(out@) == seq![(DTypeLike::Concrete(DType::F64),
                        t.1.drop_last().push(Dim::Fixed(self.expressions_spec().len() as usize)), true)]
                }
            },
    {
        if input_types.len() != 1 {
            return Err(ParameterExpressionsError::Input(CallInputError::WrongArity { expected: 1, actual: input_types.len() }));
        }
        let x = &input_types[0];
        let is_f64 = match &x.dtype {
            DTypeLike::Concrete(DType::F64) => true,
            _ => false,
        };
        if !is_f64 {
            return Err(ParameterExpressionsError::WrongDType { dtype: x.dtype.clone() });
        }
        let rank = x.shape.len();
        if rank == 0 {
            return Err(ParameterExpressionsError::EmptyShape);
        }
        let n = self.parameters.len();
        let last_ok = match &x.shape[rank - 1] {
            Dim::Fixed(k) => *k == n,
            Dim::Named(_) => true,
        };
        if !last_ok {
            return Err(ParameterExpressionsError::WrongShape { shape: copy_dims(x.shape.as_slice()), expected: n });
        }
        let mut shape = copy_dims(x.shape.as_slice());
        shape.pop();
        shape.push(Dim::Fixed(self.expressions.len()));
        let out = TensorType { dtype: DTypeLike::Concrete(DType::F64), shape, broadcastable: true };
        let types = vec![out];
        assert(type_views(types@) =~= seq![out@]);
        Ok(types)
    }
}

/// The broadcastable `F64` type with one axis of `n` entries.
pub open spec fn f64_vector(n: usize) -> (DTypeLike, Seq<Dim>, bool) {
    (DTypeLike::Concrete(DType::F64), seq![Dim::Fixed(n)], true)
}

/// The broadcastable `F64` type with one axis of `n` entries.
fn f64_vector_type(n: usize) -> (t: TensorType)
    ensures
        t@ == f64_vector(n),
{
    let mut shape: Vec<Dim> = Vec::new();
    shape.push(Dim::Fixed(n));
    assert(shape@ =~= seq![Dim::Fixed(n)]);
    TensorType { dtype: DTypeLike::Concrete(DType::F64), shape, broadcastable: true }
}

} // verus!
