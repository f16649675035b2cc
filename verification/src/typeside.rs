//! Base scalar sorts and tagged scalar values.
//!
//! A typeside fixes the closed set of base sorts available to schemas
//! (`String`, `Int`, `Float`, `Bool`, plus user-named custom sorts) and the
//! tagged values that instances store in attribute cells.  Floating-point
//! payloads are not representable in the verified core; the `Float` sort
//! exists only as a name so that schemas can still declare such columns.

use vstd::prelude::*;

verus! {

/// A base sort: the codomain of an attribute edge.
#[derive(Debug, Clone, Eq, Hash)]
pub enum BaseType {
    String,
    Integer,
    Float,
    Boolean,
    /// A user-named custom sort.
    Custom(std::string::String),
}

/// The mathematical value of a base sort: the custom name is read as its
/// character sequence.
pub enum SortView {
    Str,
    Int,
    Flt,
    Bool,
    Custom(Seq<char>),
}

impl View for BaseType {
    type V = SortView;

    open spec fn view(&self) -> SortView {
        match self {
            BaseType::String => SortView::Str,
            BaseType::Integer => SortView::Int,
            BaseType::Float => SortView::Flt,
            BaseType::Boolean => SortView::Bool,
            BaseType::Custom(s) => SortView::Custom(s@),
        }
    }
}

impl PartialEq for BaseType {
    fn eq(&self, other: &BaseType) -> bool {
        match (self, other) {
            (BaseType::String, BaseType::String) => true,
            (BaseType::Integer, BaseType::Integer) => true,
            (BaseType::Float, BaseType::Float) => true,
            (BaseType::Boolean, BaseType::Boolean) => true,
            (BaseType::Custom(a), BaseType::Custom(b)) => *a == *b,
            _ => false,
        }
    }
}

impl vstd::std_specs::cmp::PartialEqSpecImpl for BaseType {
    open spec fn obeys_eq_spec() -> bool {
        true
    }

    open spec fn eq_spec(&self, other: &BaseType) -> bool {
        self@ == other@
    }
}

impl BaseType {
    /// Copies the sort, preserving its view.
    pub fn duplicate(&self) -> (r: BaseType)
        ensures
            r@ == self@,
    {
        match self {
            BaseType::String => BaseType::String,
            BaseType::Integer => BaseType::Integer,
            BaseType::Float => BaseType::Float,
            BaseType::Boolean => BaseType::Boolean,
            BaseType::Custom(s) => BaseType::Custom(s.clone()),
        }
    }
}

/// A concrete scalar stored in an attribute cell.
///
/// `Null` stands for an absent value; the comparison matrix of the
/// evaluator treats it as equal to nothing (including itself) under every
/// operator except inequality.
#[derive(Debug, Clone, Eq)]
pub enum Value {
    String(std::string::String),
    Integer(i64),
    Boolean(bool),
    Null,
}

/// The mathematical value of a scalar.
pub enum ValueView {
    Str(Seq<char>),
    Int(i64),
    Bool(bool),
    Null,
}

impl View for Value {
    type V = ValueView;

    open spec fn view(&self) -> ValueView {
        match self {
            Value::String(s) => ValueView::Str(s@),
            Value::Integer(i) => ValueView::Int(*i),
            Value::Boolean(b) => ValueView::Bool(*b),
            Value::Null => ValueView::Null,
        }
    }
}

impl Value {
    /// The base sort a value belongs to; `Null` is polymorphic and reports
    /// the `String` sort by convention.
    pub open spec fn spec_type(&self) -> SortView {
        match self {
            Value::String(_) => SortView::Str,
            Value::Integer(_) => SortView::Int,
            Value::Boolean(_) => SortView::Bool,
            Value::Null => SortView::Str,
        }
    }

    /// Returns the base sort of this value.
    pub fn get_type(&self) -> (r: BaseType)
        ensures
            r@ == self.spec_type(),
    {
        match self {
            Value::String(_) => BaseType::String,
            Value::Integer(_) => BaseType::Integer,
            Value::Boolean(_) => BaseType::Boolean,
            Value::Null => BaseType::String,
        }
    }

    /// Copies the value, preserving its view.
    pub fn duplicate(&self) -> (r: Value)
        ensures
            r@ == self@,
    {
        match self {
            Value::String(s) => Value::String(s.clone()),
            Value::Integer(i) => Value::Integer(*i),
            Value::Boolean(b) => Value::Boolean(*b),
            Value::Null => Value::Null,
        }
    }
}

impl PartialEq for Value {
    fn eq(&self, other: &Value) -> bool {
        match (self, other) {
            (Value::String(a), Value::String(b)) => *a == *b,
            (Value::Integer(a), Value::Integer(b)) => a == b,
            (Value::Boolean(a), Value::Boolean(b)) => a == b,
            (Value::Null, Value::Null) => true,
            _ => false,
        }
    }
}

impl vstd::std_specs::cmp::PartialEqSpecImpl for Value {
    open spec fn obeys_eq_spec() -> bool {
        true
    }

    open spec fn eq_spec(&self, other: &Value) -> bool {
        self@ == other@
    }
}

/// The signature of an operation on base sorts.
#[derive(Debug, Clone)]
pub struct OpSignature {
    pub name: std::string::String,
    pub input_types: Vec<BaseType>,
    pub output_type: BaseType,
}

/// The typeside: which base sorts exist, plus declared operations and named
/// constants.  Sorts are kept unique up to their views.
#[derive(Debug, Clone)]
pub struct Typeside {
    pub types: Vec<BaseType>,
    pub operations: Vec<OpSignature>,
    pub constants: Vec<(std::string::String, (BaseType, Value))>,
}

impl Typeside {
    /// The views of the listed sorts.
    pub open spec fn spec_types(&self) -> Seq<SortView> {
        self.types@.map_values(|t: BaseType| t@)
    }

    /// Whether some listed sort equals `ty`.
    pub open spec fn spec_has_type(&self, ty: SortView) -> bool {
        self.spec_types().contains(ty)
    }

    /// The typeside with the four standard sorts and nothing else.
    pub fn default_sql() -> (r: Typeside)
        ensures
            r.spec_types() =~= seq![SortView::Str, SortView::Int, SortView::Flt, SortView::Bool],
            r.operations@.len() == 0,
            r.constants@.len() == 0,
    {
        Typeside {
            types: vec![
                BaseType::String,
                BaseType::Integer,
                BaseType::Float,
                BaseType::Boolean,
            ],
            operations: Vec::new(),
            constants: Vec::new(),
        }
    }

    /// The empty typeside.
    pub fn empty() -> (r: Typeside)
        ensures
            r.types@.len() == 0,
            r.operations@.len() == 0,
            r.constants@.len() == 0,
    {
        Typeside { types: Vec::new(), operations: Vec::new(), constants: Vec::new() }
    }

    /// Whether `ty` is one of this typeside's sorts.
    pub fn has_type(&self, ty: &BaseType) -> (r: bool)
        ensures
            r == self.spec_has_type(ty@),
    {
        let mut i: usize = 0;
        while i < self.types.len()
            invariant
                0 <= i <= self.types@.len(),
                forall|j: int| 0 <= j < i ==> self.types@[j]@ != ty@,
            decreases self.types@.len() - i,
        {
            if &self.types[i] == ty {
                assert(self.spec_types()[i as int] == ty@);
                return true;
            }
            i += 1;
        }
        assert(forall|j: int| 0 <= j < self.spec_types().len() ==> self.spec_types()[j] != ty@);
        false
    }

    /// Adds a sort unless an equal one is already present.
    pub fn add_type(&mut self, ty: BaseType)
        ensures
            old(self).spec_has_type(ty@) ==> *final(self) == *old(self),
            !old(self).spec_has_type(ty@) ==> final(self).types@ == old(self).types@.push(ty),
            final(self).operations@ == old(self).operations@,
            final(self).constants@ == old(self).constants@,
    {
        if !self.has_type(&ty) {
            self.types.push(ty);
        }
    }

    /// Declares an operation signature.
    pub fn add_operation(&mut self, op: OpSignature)
        ensures
            final(self).operations@ == old(self).operations@.push(op),
            final(self).types@ == old(self).types@,
            final(self).constants@ == old(self).constants@,
    {
        self.operations.push(op);
    }
}

} // verus!
