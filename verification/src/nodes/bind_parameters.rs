//! A node that evaluates parameter expressions over a batch of parameter values.
//!
//! The operand has one value per declared parameter in its trailing axis, and the result has one
//! value per expression. Leading axes on the operand are a batch prefix and are carried onto the
//! result.

use vstd::prelude::*;

use crate::collections::{NameSet, name_set_contents};
use crate::parameter_expressions::{
    ParameterExpression, Symbol, first_missing, first_undeclared, lemma_first_missing_stays,
    lemma_first_undeclared_stays, lemma_take_to_set_step, symbol_names,
};
use crate::tensor::{DType, DTypeLike, Dim, TensorType, copy_dims, push_type, type_text, type_views};
use crate::text::{decimal, push_decimal, push_str};

verus! {

/// Evaluate parameter expressions over a batch of parameter values.
pub struct BindParameters {
    expressions: Vec<ParameterExpression>,
    parameters: Vec<Symbol>,
}

/// Errors returned by [`BindParameters`].
#[derive(Debug, PartialEq, Eq)]
pub enum BindParametersError {
    /// An expression references a parameter the node does not declare.
    UndeclaredParameter { expression: usize, parameter: Symbol },
    /// The parameter values are not a floating-point tensor whose trailing axis is the declared
    /// parameter count.
    ValueType { parameters: usize, actual: TensorType },
    /// An expression did not evaluate to a real number.
    NotReal { expression: usize },
}

/// The first reference, over the expressions in order, to a parameter that `parameters` does
/// not declare: the expression's index and the parameter's name.
pub open spec fn undeclared_reference(expressions: Seq<ParameterExpression>, parameters: Seq<Symbol>) -> Option<(nat, Seq<char>)> {
    match first_undeclared(expressions, symbol_names(parameters).to_set(), expressions.len()) {
        Some((i, j)) => Some((i, symbol_names(expressions[i as int].symbols@)[j as int])),
        None => None,
    }
}

/// Whether an element type is floating point.
pub open spec fn is_float(d: DTypeLike) -> bool {
    d matches DTypeLike::Concrete(c) && (c == DType::F32 || c == DType::F64)
}

/// The axes of `shape` before its trailing axis, if that axis has exactly `n` entries.
pub open spec fn leading_axes(shape: Seq<Dim>, n: usize) -> Option<Seq<Dim>> {
    if shape.len() > 0 && shape.last() == Dim::Fixed(n) {
        Some(shape.drop_last())
    } else {
        None
    }
}

/// The type of the result for an operand of type `values`, `parameters` declared parameters and
/// `expressions` expressions: `F64` values over the operand's batch prefix and one axis of
/// `expressions` entries; none if the operand is not floating point over a trailing axis of
/// `parameters` entries.
pub open spec fn bound_type(values: (DTypeLike, Seq<Dim>, bool), parameters: usize, expressions: usize) -> Option<(DTypeLike, Seq<Dim>, bool)> {
    if !is_float(values.0) {
        None
    } else {
        match leading_axes(values.1, parameters) {
            Some(batch) => Some((DTypeLike::Concrete(DType::F64), batch.push(Dim::Fixed(expressions)), values.2)),
            None => None,
        }
    }
}

/// How an error is displayed.
pub open spec fn bind_error_text(e: BindParametersError) -> Seq<char> {
    match e {
        BindParametersError::UndeclaredParameter { expression, parameter } =>
            "expression "@ + decimal(expression as nat) + " references undeclared parameter "@ + parameter.name@,
        BindParametersError::ValueType { parameters, actual } =>
            "expected a floating-point tensor of shape [..., "@ + decimal(parameters as nat) + "], got "@
                + type_text(actual.dtype, actual.shape@),
        BindParametersError::NotReal { expression } =>
            "expression "@ + decimal(expression as nat) + " did not evaluate to a real number"@,
    }
}

impl BindParametersError {
    /// How this error is displayed.
    pub fn to_string(&self) -> (text: String)
        ensures
            text@ == bind_error_text(*self),
    {
        let mut text = String::new();
        match self {
            BindParametersError::UndeclaredParameter { expression, parameter } => {
                push_str(&mut text, "expression ");
                push_decimal(&mut text, *expression);
                push_str(&mut text, " references undeclared parameter ");
                push_str(&mut text, parameter.fullname());
            },
            BindParametersError::ValueType { parameters, actual } => {
                push_str(&mut text, "expected a floating-point tensor of shape [..., ");
                push_decimal(&mut text, *parameters);
                push_str(&mut text, "], got ");
                push_type(&mut text, actual);
            },
            BindParametersError::NotReal { expression } => {
                push_str(&mut text, "expression ");
                push_decimal(&mut text, *expression);
                push_str(&mut text, " did not evaluate to a real number");
            },
        }
        text
    }
}

/// The first reference, over `expressions` in order, to a parameter that `parameters` does not
/// declare, with the index of the expression that makes it.
fn undeclared_parameter(expressions: &[ParameterExpression], parameters: &[Symbol]) -> (found: Option<(usize, Symbol)>)
    ensures
        match undeclared_reference(expressions@, parameters@) {
            None => found is None,
            Some((i, name)) => found matches Some((index, symbol)) && index == i && symbol.name@ == name,
        },
{
    let ghost names = symbol_names(parameters@);
    let mut declared = NameSet::new();
    for k in 0..parameters.len()
        invariant
            names == symbol_names(parameters@),
            name_set_contents(declared) == names.take(k as int).to_set(),
    {
        proof {
            lemma_take_to_set_step(names, k as int);
            assert(names[k as int] == parameters@[k as int].name@);
        }
        declared.insert(parameters[k].name.clone());
    }
    let ghost declared_set = name_set_contents(declared);
    proof {
        assert(names.take(parameters.len() as int) =~= names);
    }
    for index in 0..expressions.len()
        invariant
            declared_set == names.to_set(),
            names == symbol_names(parameters@),
            name_set_contents(declared) == declared_set,
            first_undeclared(expressions@, declared_set, index as nat) is None,
    {
        let symbols = expressions[index].iter_symbols();
        let ghost sym_names = symbol_names(expressions@[index as int].symbols@);
        for j in 0..symbols.len()
            invariant
                index < expressions@.len(),
                symbols@ == expressions@[index as int].symbols@,
                sym_names == symbol_names(symbols@),
                first_missing(sym_names, declared_set, j as nat) is None,
                first_undeclared(expressions@, declared_set, index as nat) is None,
                name_set_contents(declared) == declared_set,
                declared_set == names.to_set(),
                names == symbol_names(parameters@),
        {
            let symbol = &symbols[j];
            assert(sym_names[j as int] == symbol.name@);
            if !declared.contains(symbol.name.as_str()) {
                proof {
                    lemma_first_missing_stays(sym_names, declared_set, (j + 1) as nat, sym_names.len());
                    lemma_first_undeclared_stays(expressions@, declared_set, (index + 1) as nat, expressions@.len());
                }
                return Some((index, Symbol { name: symbol.name.clone() }));
            }
        }
    }
    None
}

impl BindParameters {
    /// Construct a node evaluating `expressions` over values for `parameters`.
    ///
    /// The operand's trailing axis has one value per entry of `parameters`, in that order.
    /// Every parameter the expressions reference must appear in `parameters`. Surplus parameters
    /// are accepted and their values ignored.
    pub fn new(expressions: Vec<ParameterExpression>, parameters: Vec<Symbol>) -> (res: Result<Self, BindParametersError>)
        ensures
            match undeclared_reference(expressions@, parameters@) {
                None => res matches Ok(node) && node.expressions_spec() == expressions@
                    && node.parameters_spec() == parameters@,
                Some((i, name)) => res matches Err(BindParametersError::UndeclaredParameter { expression, parameter })
                    && expression == i && parameter.name@ == name,
            },
    {
        match undeclared_parameter(expressions.as_slice(), parameters.as_slice()) {
            Some((expression, parameter)) => Err(BindParametersError::UndeclaredParameter { expression, parameter }),
            None => Ok(BindParameters { expressions, parameters }),
        }
    }

    /// The expressions, as the spec sees them.
    pub closed spec fn expressions_spec(&self) -> Seq<ParameterExpression> {
        self.expressions@
    }

    /// The declared parameters, as the spec sees them.
    pub closed spec fn parameters_spec(&self) -> Seq<Symbol> {
        self.parameters@
    }

    /// The expressions this node evaluates.
    pub fn expressions(&self) -> (expressions: &[ParameterExpression])
        ensures
            expressions@ == self.expressions_spec(),
    {
        self.expressions.as_slice()
    }

    /// The parameters the operand has values for, in order.
    pub fn parameters(&self) -> (parameters: &[Symbol])
        ensures
            parameters@ == self.parameters_spec(),
    {
        self.parameters.as_slice()
    }

    /// The node's name.
    pub fn name(&self) -> (name: &str)
        ensures
            name@ == "bind_parameters"@,
    {
        "bind_parameters"
    }

    /// The namespace the node belongs to.
    pub fn namespace(&self) -> (namespace: &str)
        ensures
            namespace@ == "qiskit"@,
    {
        "qiskit"
    }

    /// The namespace and name as one string.
    pub fn full_name(&self) -> (full: String)
        ensures
            full@ == "qiskit"@ + "."@ + "bind_parameters"@,
    {
        let mut full = String::new();
        push_str(&mut full, self.namespace());
        push_str(&mut full, ".");
        push_str(&mut full, self.name());
        full
    }

    /// The number of operands: the parameter values.
    pub fn arity(&self) -> (n: usize)
        ensures
            n == 1,
    {
        1
    }

    /// Qiskit evaluates the expressions itself.
    pub fn has_builtin_eval(&self) -> (builtin: bool)
        ensures
            builtin,
    {
        true
    }

    /// The type of the result for the type of the operand.
    ///
    /// The operand must be floating point with a trailing axis of one value per declared
    /// parameter; the axes before it are a batch prefix, put in front of the result's axis of one
    /// `F64` value per expression.
    pub fn infer_output_types(&self, inputs: &[TensorType]) -> (res: Result<Vec<TensorType>, BindParametersError>)
        requires
            inputs@.len() == 1,
        ensures
            match bound_type(inputs@[0]@, self.parameters_spec().len() as usize, self.expressions_spec().len() as usize) {
                Some(t) => res matches Ok(out) && type_views(out@) == seq![t],
                None => res matches Err(BindParametersError::ValueType { parameters, actual })
                    && parameters == self.parameters_spec().len() && actual@ == inputs@[0]@,
            },
    {
        let values = &inputs[0];
        let parameters = self.parameters.len();
        let float = match &values.dtype {
            DTypeLike::Concrete(DType::F32) => true,
            DTypeLike::Concrete(DType::F64) => true,
            _ => false,
        };
        let rank = values.shape.len();
        let trailing = rank > 0 && match &values.shape[rank - 1] {
            Dim::Fixed(n) => *n == parameters,
            Dim::Named(_) => false,
        };
        if !float || !trailing {
            return Err(BindParametersError::ValueType { parameters, actual: values.clone() });
        }
        let mut shape = copy_dims(values.shape.as_slice());
        shape.pop();
        shape.push(Dim::Fixed(self.expressions.len()));
        let out = TensorType { dtype: DTypeLike::Concrete(DType::F64), shape, broadcastable: values.broadcastable };
        let types = vec![out];
        assert(type_views(types@) =~= seq![out@]);
        Ok(types)
    }
}

/// A name missing from a larger set of declared names is missing from the smaller one.
proof fn lemma_first_missing_grows(symbols: Seq<Seq<char>>, declared: Set<Seq<char>>, more: Set<Seq<char>>, m: nat)
    requires
        declared.subset_of(more),
        first_missing(symbols, declared, m) is None,
    ensures
        first_missing(symbols, more, m) is None,
    decreases m,
{
    if m > 0 {
        lemma_first_missing_grows(symbols, declared, more, (m - 1) as nat);
    }
}

/// An undeclared reference against a larger set of declared names is one against the smaller.
proof fn lemma_first_undeclared_grows(expressions: Seq<ParameterExpression>, declared: Set<Seq<char>>, more: Set<Seq<char>>, m: nat)
    requires
        declared.subset_of(more),
        first_undeclared(expressions, declared, m) is None,
    ensures
        first_undeclared(expressions, more, m) is None,
    decreases m,
{
    if m > 0 {
        lemma_first_undeclared_grows(expressions, declared, more, (m - 1) as nat);
        let symbols = symbol_names(expressions[m - 1].symbols@);
        lemma_first_missing_grows(symbols, declared, more, symbols.len());
    }
}

/// Declaring more parameters than the expressions reference never makes a node refused: a
/// caller can declare a whole circuit's parameters without pruning them to what each
/// expression uses.
pub proof fn lemma_surplus_parameters_are_accepted(expressions: Seq<ParameterExpression>, parameters: Seq<Symbol>, surplus: Seq<Symbol>)
    requires
        undeclared_reference(expressions, parameters) is None,
    ensures
        undeclared_reference(expressions, parameters + surplus) is None,
{
    let declared = symbol_names(parameters).to_set();
    let more = symbol_names(parameters + surplus).to_set();
    assert(declared.subset_of(more)) by {
        assert forall|name: Seq<char>| declared.contains(name) implies more.contains(name) by {
            let i = choose|i: int| 0 <= i < symbol_names(parameters).len() && symbol_names(parameters)[i] == name;
            assert(symbol_names(parameters + surplus)[i] == name);
        }
    }
    lemma_first_undeclared_grows(expressions, declared, more, expressions.len());
}

} // verus!
