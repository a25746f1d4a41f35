//! The values cached for a contract: names, type signatures and the
//! analysis record itself.
use vstd::prelude::*;
use vstd::string::StringSliceAdditionalSpecFns;

verus! {

/// A name, held as its bytes.
#[derive(Clone, Debug)]
pub struct ClarityName {
    pub bytes: Vec<u8>,
}

impl View for ClarityName {
    type V = Seq<u8>;

    open spec fn view(&self) -> Seq<u8> {
        self.bytes@
    }
}

impl ClarityName {
    /// The name whose bytes are those of `s`.
    pub fn new(s: &str) -> (r: ClarityName)
        ensures
            r@ == s.spec_bytes(),
    {
        ClarityName { bytes: s.as_bytes_vec() }
    }

    /// A copy of this name.
    pub fn duplicate(&self) -> (r: ClarityName)
        ensures
            r@ == self@,
    {
        ClarityName { bytes: copy_bytes(&self.bytes) }
    }

    /// Whether the two names hold the same bytes.
    pub fn same_as(&self, other: &ClarityName) -> (r: bool)
        ensures
            r == (self@ == other@),
    {
        bytes_equal(&self.bytes, &other.bytes)
    }
}

/// A fresh vector with the same bytes.
pub fn copy_bytes(b: &Vec<u8>) -> (r: Vec<u8>)
    ensures
        r@ == b@,
{
    let mut r: Vec<u8> = Vec::new();
    let mut i: usize = 0;
    while i < b.len()
        invariant
            i <= b.len(),
            r@ == b@.take(i as int),
        decreases b.len() - i,
    {
        r.push(b[i]);
        i = i + 1;
        assert(r@ =~= b@.take(i as int));
    }
    assert(r@ =~= b@);
    r
}

/// Whether two byte vectors are equal.
pub fn bytes_equal(a: &Vec<u8>, b: &Vec<u8>) -> (r: bool)
    ensures
        r == (a@ == b@),
{
    if a.len() != b.len() {
        return false;
    }
    let mut i: usize = 0;
    while i < a.len()
        invariant
            i <= a.len(),
            a.len() == b.len(),
            a@.take(i as int) == b@.take(i as int),
        decreases a.len() - i,
    {
        if a[i] != b[i] {
            assert(a@[i as int] != b@[i as int]);
            return false;
        }
        assert(a@.take(i + 1) =~= a@.take(i as int).push(a@[i as int]));
        assert(b@.take(i + 1) =~= b@.take(i as int).push(b@[i as int]));
        i = i + 1;
    }
    assert(a@ =~= a@.take(i as int));
    assert(b@ =~= b@.take(i as int));
    true
}

/// The type of a value, as the analysis records it.
#[derive(PartialEq, Eq, Structural, Clone, Copy, Debug)]
pub enum TypeSignature {
    NoType,
    IntType,
    UIntType,
    BoolType,
    PrincipalType,
    BufferType(u32),
    StringAsciiType(u32),
    StringUtf8Type(u32),
}

/// A contract: the issuing principal and the contract's name.
#[derive(Clone, Debug)]
pub struct QualifiedContractIdentifier {
    pub issuer: ClarityName,
    pub name: ClarityName,
}

impl QualifiedContractIdentifier {
    pub fn new(issuer: &str, name: &str) -> (r: QualifiedContractIdentifier)
        ensures
            r.issuer@ == issuer.spec_bytes(),
            r.name@ == name.spec_bytes(),
    {
        QualifiedContractIdentifier { issuer: ClarityName::new(issuer), name: ClarityName::new(name) }
    }

    /// The pair of byte strings that identifies the contract.
    pub open spec fn key(&self) -> (Seq<u8>, Seq<u8>) {
        (self.issuer@, self.name@)
    }

    pub fn duplicate(&self) -> (r: QualifiedContractIdentifier)
        ensures
            r.key() == self.key(),
    {
        QualifiedContractIdentifier { issuer: self.issuer.duplicate(), name: self.name.duplicate() }
    }
}

/// The signature of a function: argument types and return type.
#[derive(Clone, Debug)]
pub struct FunctionType {
    pub args: Vec<TypeSignature>,
    pub return_type: TypeSignature,
}

/// A function of a contract or of a trait, with its signature.
#[derive(Clone, Debug)]
pub struct FunctionEntry {
    pub name: ClarityName,
    pub function_type: FunctionType,
}

/// A trait that a contract defines: its name and required functions.
#[derive(Clone, Debug)]
pub struct TraitDefinition {
    pub name: ClarityName,
    pub functions: Vec<FunctionEntry>,
}

/// A trait, named by the contract that defines it and its name there.
#[derive(Clone, Debug)]
pub struct TraitIdentifier {
    pub contract: QualifiedContractIdentifier,
    pub name: ClarityName,
}

/// A data map that a contract declares, with its key and value types.
#[derive(Clone, Debug)]
pub struct MapEntry {
    pub name: ClarityName,
    pub key_type: TypeSignature,
    pub value_type: TypeSignature,
}

/// What static analysis found out about one contract.
#[derive(Clone, Debug)]
pub struct ContractAnalysis {
    pub public_function_types: Vec<FunctionEntry>,
    pub read_only_function_types: Vec<FunctionEntry>,
    pub defined_traits: Vec<TraitDefinition>,
    pub implemented_traits: Vec<TraitIdentifier>,
    pub map_types: Vec<MapEntry>,
}

} // verus!
