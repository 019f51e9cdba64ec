//! Identifiers, handles, edges and tensor shapes.

use vstd::prelude::*;
use vstd::std_specs::cmp::PartialEqSpecImpl;
use vstd::std_specs::convert::FromSpecImpl;

use crate::nodes::table::Key;

verus! {

/// The text of an identifier, as contracts see it.
pub type Name = Seq<char>;

/// An immutable identifier with value equality: the key of a node, the id of
/// an edge, or the name of a handle.
#[derive(Debug, Hash)]
pub struct Id(String);

impl View for Id {
    type V = Name;

    closed spec fn view(&self) -> Name {
        self.0@
    }
}

impl Id {
    /// The identifier that spells `text`.
    pub fn new(text: &str) -> (id: Id)
        ensures
            id@ == text@,
    {
        Id(text.to_owned())
    }

    /// The text of the identifier.
    pub fn as_str(&self) -> (text: &str)
        ensures
            text@ == self@,
    {
        self.0.as_str()
    }
}

impl std::ops::Deref for Id {
    type Target = str;

    fn deref(&self) -> (text: &str)
        ensures
            text@ == self@,
    {
        self.0.as_str()
    }
}

impl From<&str> for Id {
    fn from(text: &str) -> (id: Id)
        ensures
            id@ == text@,
    {
        Id::new(text)
    }
}

impl FromSpecImpl<&str> for Id {
    open spec fn obeys_from_spec() -> bool {
        false
    }

    open spec fn from_spec(text: &str) -> Id {
        arbitrary()
    }
}

impl From<String> for Id {
    fn from(text: String) -> (id: Id)
        ensures
            id@ == text@,
    {
        Id(text)
    }
}

impl FromSpecImpl<String> for Id {
    open spec fn obeys_from_spec() -> bool {
        false
    }

    open spec fn from_spec(text: String) -> Id {
        arbitrary()
    }
}

impl Clone for Id {
    fn clone(&self) -> (id: Id)
        ensures
            id == *self,
    {
        Id(self.0.clone())
    }
}

impl PartialEq for Id {
    fn eq(&self, other: &Id) -> (same: bool) {
        self.0 == other.0
    }
}

impl Eq for Id {
}

impl PartialEqSpecImpl for Id {
    open spec fn obeys_eq_spec() -> bool {
        true
    }

    open spec fn eq_spec(&self, other: &Id) -> bool {
        self@ == other@
    }
}

impl Key for Id {
    fn same(&self, other: &Id) -> (same: bool) {
        self.0 == other.0
    }
}

/// The texts of a list of identifiers.
pub open spec fn names(ids: Seq<Id>) -> Seq<Name> {
    Seq::new(ids.len(), |i: int| ids[i]@)
}

/// The element type carried on a handle.
#[derive(Clone, Copy, Debug, PartialEq, Eq, Hash, Structural)]
pub enum DataType {
    IntTensor,
    FloatTensor,
}

/// A constraint that a node kind may put on the rank of a handle.
#[derive(Debug)]
pub enum RankConstraint {
    Any,
    Fixed(usize),
    MatchHandle(Id),
}

impl Clone for RankConstraint {
    fn clone(&self) -> (constraint: RankConstraint)
        ensures
            constraint == *self,
    {
        match self {
            RankConstraint::Any => RankConstraint::Any,
            RankConstraint::Fixed(rank) => RankConstraint::Fixed(*rank),
            RankConstraint::MatchHandle(id) => RankConstraint::MatchHandle(id.clone()),
        }
    }
}

/// The dimension sizes of a tensor, in order.
#[derive(Debug)]
pub struct TensorShape(pub Vec<usize>);

impl View for TensorShape {
    type V = Seq<usize>;

    open spec fn view(&self) -> Seq<usize> {
        self.0@
    }
}

impl From<Vec<usize>> for TensorShape {
    fn from(dims: Vec<usize>) -> (shape: TensorShape)
        ensures
            shape@ == dims@,
    {
        TensorShape(dims)
    }
}

impl FromSpecImpl<Vec<usize>> for TensorShape {
    open spec fn obeys_from_spec() -> bool {
        true
    }

    open spec fn from_spec(dims: Vec<usize>) -> TensorShape {
        TensorShape(dims)
    }
}

impl Clone for TensorShape {
    fn clone(&self) -> (shape: TensorShape)
        ensures
            shape@ == self@,
    {
        let mut dims: Vec<usize> = Vec::new();
        let mut i: usize = 0;
        while i < self.0.len()
            invariant
                i <= self.0.len(),
                dims@ == self.0@.take(i as int),
            decreases self.0.len() - i,
        {
            dims.push(self.0[i]);
            i += 1;
        }
        proof {
            assert(self.0@.take(i as int) == self.0@);
        }
        TensorShape(dims)
    }
}

impl PartialEq for TensorShape {
    fn eq(&self, other: &TensorShape) -> (same: bool) {
        if self.0.len() != other.0.len() {
            return false;
        }
        let mut i: usize = 0;
        while i < self.0.len()
            invariant
                i <= self.0.len(),
                self.0.len() == other.0.len(),
                self.0@.take(i as int) == other.0@.take(i as int),
            decreases self.0.len() - i,
        {
            if self.0[i] != other.0[i] {
                return false;
            }
            i += 1;
        }
        proof {
            assert(self.0@.take(i as int) == self.0@);
            assert(other.0@.take(i as int) == other.0@);
        }
        true
    }
}

impl PartialEqSpecImpl for TensorShape {
    open spec fn obeys_eq_spec() -> bool {
        true
    }

    open spec fn eq_spec(&self, other: &TensorShape) -> bool {
        self@ == other@
    }
}

/// A named, typed input or output of a node kind.
#[derive(Debug)]
pub struct HandleDef {
    pub id: Id,
    pub dtype: DataType,
}

impl View for HandleDef {
    type V = (Name, DataType);

    open spec fn view(&self) -> (Name, DataType) {
        (self.id@, self.dtype)
    }
}

impl Clone for HandleDef {
    fn clone(&self) -> (def: HandleDef)
        ensures
            def == *self,
    {
        HandleDef { id: self.id.clone(), dtype: self.dtype }
    }
}

/// One handle on one node: an endpoint of an edge.
#[derive(Debug, Hash)]
pub struct HandleRef {
    pub node_id: Id,
    pub handle_id: Id,
}

/// A handle reference as contracts see it.
pub struct HandleKey {
    pub node_id: Name,
    pub handle_id: Name,
}

impl View for HandleRef {
    type V = HandleKey;

    open spec fn view(&self) -> HandleKey {
        HandleKey { node_id: self.node_id@, handle_id: self.handle_id@ }
    }
}

impl Clone for HandleRef {
    fn clone(&self) -> (handle: HandleRef)
        ensures
            handle == *self,
    {
        HandleRef { node_id: self.node_id.clone(), handle_id: self.handle_id.clone() }
    }
}

impl PartialEq for HandleRef {
    fn eq(&self, other: &HandleRef) -> (same: bool) {
        self.node_id == other.node_id && self.handle_id == other.handle_id
    }
}

impl Eq for HandleRef {
}

impl PartialEqSpecImpl for HandleRef {
    open spec fn obeys_eq_spec() -> bool {
        true
    }

    open spec fn eq_spec(&self, other: &HandleRef) -> bool {
        self@ == other@
    }
}

impl Key for HandleRef {
    fn same(&self, other: &HandleRef) -> (same: bool) {
        self.node_id.same(&other.node_id) && self.handle_id.same(&other.handle_id)
    }
}

/// A directed connection from an output handle to an input handle.
#[derive(Debug)]
pub struct Edge {
    pub source: HandleRef,
    pub target: HandleRef,
    pub id: Id,
}

/// An edge as contracts see it.
pub struct EdgeView {
    pub source: HandleKey,
    pub target: HandleKey,
    pub id: Name,
}

impl View for Edge {
    type V = EdgeView;

    open spec fn view(&self) -> EdgeView {
        EdgeView { source: self.source@, target: self.target@, id: self.id@ }
    }
}

impl Clone for Edge {
    fn clone(&self) -> (edge: Edge)
        ensures
            edge == *self,
    {
        Edge { source: self.source.clone(), target: self.target.clone(), id: self.id.clone() }
    }
}

} // verus!
