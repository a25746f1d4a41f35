use clarity_db::analysis_db::{AnalysisDatabase, CheckErrors};
use clarity_db::rollback::BackingStore;
use clarity_db::types::{
    ClarityName, ContractAnalysis, FunctionEntry, FunctionType, MapEntry, QualifiedContractIdentifier,
    TraitDefinition, TraitIdentifier, TypeSignature,
};

fn id(name: &str) -> QualifiedContractIdentifier {
    QualifiedContractIdentifier::new("SP000000000000000000002Q6VF78", name)
}

fn function(name: &str, args: Vec<TypeSignature>, ret: TypeSignature) -> FunctionEntry {
    FunctionEntry { name: ClarityName::new(name), function_type: FunctionType { args, return_type: ret } }
}

fn sample(key: TypeSignature, value: TypeSignature) -> ContractAnalysis {
    ContractAnalysis {
        public_function_types: vec![function(
            "transfer",
            vec![TypeSignature::UIntType, TypeSignature::PrincipalType],
            TypeSignature::BoolType,
        )],
        read_only_function_types: vec![function("get-balance", vec![TypeSignature::PrincipalType], TypeSignature::UIntType)],
        defined_traits: vec![TraitDefinition {
            name: ClarityName::new("token-trait"),
            functions: vec![function("transfer", vec![TypeSignature::UIntType], TypeSignature::BoolType)],
        }],
        implemented_traits: vec![TraitIdentifier { contract: id("traits"), name: ClarityName::new("token-trait") }],
        map_types: vec![MapEntry { name: ClarityName::new("m"), key_type: key, value_type: value }],
    }
}

fn db() -> AnalysisDatabase {
    AnalysisDatabase::new(BackingStore::new())
}

#[test]
fn storage_key_is_analysis() {
    assert_eq!(AnalysisDatabase::storage_key(), "analysis");
}

#[test]
fn insert_then_load() {
    let mut db = db();
    let a = sample(TypeSignature::IntType, TypeSignature::BufferType(32));
    assert!(!db.has_contract(&id("c")));
    assert!(db.load_contract(&id("c")).is_none());
    db.insert_contract(&id("c"), &a).unwrap();
    assert!(db.has_contract(&id("c")));
    let back = db.load_contract(&id("c")).unwrap();
    assert_eq!(back.serialize(), a.serialize());
    assert!(!db.has_contract(&id("other")));
}

#[test]
fn write_once() {
    let mut db = db();
    let a = sample(TypeSignature::IntType, TypeSignature::BufferType(32));
    let b = sample(TypeSignature::BoolType, TypeSignature::UIntType);
    assert!(db.insert_contract(&id("c"), &a).is_ok());
    match db.insert_contract(&id("c"), &b) {
        Err(CheckErrors::ContractAlreadyExists(c)) => assert_eq!(c.name.bytes, b"c".to_vec()),
        other => panic!("unexpected {:?}", other),
    }
    let back = db.load_contract(&id("c")).unwrap();
    assert_eq!(back.serialize(), a.serialize());
    assert_eq!(db.get_map_type(&id("c"), "m").unwrap(), (TypeSignature::IntType, TypeSignature::BufferType(32)));
}

#[test]
fn failed_unit_leaves_nothing() {
    let mut db = db();
    let a = sample(TypeSignature::IntType, TypeSignature::IntType);
    let work = vec![(id("x"), a.clone()), (id("y"), a.clone()), (id("z"), a.clone()), (id("x"), a.clone())];
    match db.insert_all(&work) {
        Err(CheckErrors::ContractAlreadyExists(c)) => assert_eq!(c.name.bytes, b"x".to_vec()),
        other => panic!("unexpected {:?}", other),
    }
    for n in ["x", "y", "z"] {
        assert!(!db.has_contract(&id(n)));
    }
}

#[test]
fn failed_unit_against_existing_contract() {
    let mut db = db();
    let a = sample(TypeSignature::IntType, TypeSignature::IntType);
    db.insert_contract(&id("old"), &a).unwrap();
    let work = vec![(id("p"), a.clone()), (id("old"), a.clone())];
    assert!(db.insert_all(&work).is_err());
    assert!(!db.has_contract(&id("p")));
    assert!(db.has_contract(&id("old")));
}

#[test]
fn successful_unit_keeps_everything() {
    let mut db = db();
    let a = sample(TypeSignature::IntType, TypeSignature::IntType);
    let work = vec![(id("x"), a.clone()), (id("y"), a.clone()), (id("z"), a.clone())];
    assert!(db.insert_all(&work).is_ok());
    for n in ["x", "y", "z"] {
        assert!(db.has_contract(&id(n)));
    }
    assert!(db.insert_all(&Vec::new()).is_ok());
}

#[test]
fn nested_frames_roll_back_from_the_top() {
    let mut db = db();
    let a = sample(TypeSignature::IntType, TypeSignature::IntType);
    db.begin();
    db.insert_contract(&id("outer"), &a).unwrap();
    db.begin();
    db.insert_contract(&id("inner"), &a).unwrap();
    assert!(db.has_contract(&id("inner")));
    db.roll_back();
    assert!(!db.has_contract(&id("inner")));
    assert!(db.has_contract(&id("outer")));
    db.begin();
    db.insert_contract(&id("kept"), &a).unwrap();
    db.commit();
    db.commit();
    assert!(db.has_contract(&id("outer")));
    assert!(db.has_contract(&id("kept")));
    let store = db.destroy();
    assert_eq!(store.frames.len(), 0);
    assert_eq!(store.store.entries.len(), 2);
}

#[test]
fn roll_back_of_outermost_frame_restores_store() {
    let mut db = db();
    let a = sample(TypeSignature::IntType, TypeSignature::IntType);
    db.begin();
    db.insert_contract(&id("gone"), &a).unwrap();
    db.roll_back();
    assert!(!db.has_contract(&id("gone")));
    assert_eq!(db.destroy().store.entries.len(), 0);
}

#[test]
fn map_projection() {
    let mut db = db();
    let a = sample(TypeSignature::StringAsciiType(10), TypeSignature::UIntType);
    db.insert_contract(&id("c"), &a).unwrap();
    assert_eq!(db.get_map_type(&id("c"), "m").unwrap(), (TypeSignature::StringAsciiType(10), TypeSignature::UIntType));
    match db.get_map_type(&id("c"), "nope") {
        Err(CheckErrors::NoSuchMap(n)) => assert_eq!(n.bytes, b"nope".to_vec()),
        other => panic!("unexpected {:?}", other),
    }
    match db.get_map_type(&id("missing"), "m") {
        Err(CheckErrors::NoSuchContract(c)) => assert_eq!(c.name.bytes, b"missing".to_vec()),
        other => panic!("unexpected {:?}", other),
    }
}

#[test]
fn function_and_trait_projections() {
    let mut db = db();
    let a = sample(TypeSignature::IntType, TypeSignature::IntType);
    db.insert_contract(&id("c"), &a).unwrap();
    let t = db.get_public_function_type(&id("c"), "transfer").unwrap().unwrap();
    assert_eq!(t.args, vec![TypeSignature::UIntType, TypeSignature::PrincipalType]);
    assert_eq!(t.return_type, TypeSignature::BoolType);
    assert!(db.get_public_function_type(&id("c"), "get-balance").unwrap().is_none());
    let r = db.get_read_only_function_type(&id("c"), "get-balance").unwrap().unwrap();
    assert_eq!(r.return_type, TypeSignature::UIntType);
    assert!(db.get_read_only_function_type(&id("c"), "transfer").unwrap().is_none());
    let tr = db.get_defined_trait(&id("c"), "token-trait").unwrap().unwrap();
    assert_eq!(tr.len(), 1);
    assert_eq!(tr[0].name.bytes, b"transfer".to_vec());
    assert!(db.get_defined_trait(&id("c"), "other").unwrap().is_none());
    let imp = db.get_implemented_traits(&id("c")).unwrap();
    assert_eq!(imp.len(), 1);
    assert_eq!(imp[0].contract.name.bytes, b"traits".to_vec());
    for r in [
        db.get_public_function_type(&id("none"), "transfer").map(|_| ()),
        db.get_read_only_function_type(&id("none"), "transfer").map(|_| ()),
        db.get_defined_trait(&id("none"), "token-trait").map(|_| ()),
        db.get_implemented_traits(&id("none")).map(|_| ()),
    ] {
        assert!(matches!(r, Err(CheckErrors::NoSuchContract(_))));
    }
}

#[test]
fn contract_hash_alone_is_no_analysis() {
    let mut db = db();
    db.test_insert_contract_hash(&id("pending"));
    assert!(!db.has_contract(&id("pending")));
    assert!(db.load_contract(&id("pending")).is_none());
    let a = sample(TypeSignature::IntType, TypeSignature::IntType);
    assert!(db.insert_contract(&id("pending"), &a).is_ok());
    assert!(db.has_contract(&id("pending")));
    assert_eq!(db.destroy().store.entries.len(), 2);
}

#[test]
fn failing_unit_of_work_is_discarded_with_its_error() {
    let a = sample(TypeSignature::IntType, TypeSignature::IntType);
    let (mut db, r): (AnalysisDatabase, Result<(), &str>) = db().execute(|mut d| {
        d.insert_contract(&id("x"), &a).unwrap();
        d.insert_contract(&id("y"), &a).unwrap();
        assert!(d.has_contract(&id("x")));
        (d, Err("stopped"))
    });
    assert_eq!(r, Err("stopped"));
    assert!(!db.has_contract(&id("x")));
    assert!(!db.has_contract(&id("y")));
    assert_eq!(db.destroy().frames.len(), 0);
}

#[test]
fn successful_unit_of_work_is_committed() {
    let a = sample(TypeSignature::IntType, TypeSignature::UIntType);
    let (mut db, r) = db().execute(|mut d| {
        let r = d.insert_contract(&id("x"), &a);
        let loaded = d.load_contract(&id("x")).is_some();
        (d, r.map(|_| loaded))
    });
    assert!(matches!(r, Ok(true)));
    assert!(db.has_contract(&id("x")));
    assert_eq!(db.get_map_type(&id("x"), "m").unwrap(), (TypeSignature::IntType, TypeSignature::UIntType));
}

#[test]
fn nested_unit_committed_into_failed_outer_is_dropped() {
    let a = sample(TypeSignature::IntType, TypeSignature::IntType);
    let (mut db, r): (AnalysisDatabase, Result<(), u32>) = db().execute(|d| {
        let (mut d, inner) = d.execute(|mut e| {
            let r = e.insert_contract(&id("b"), &a);
            (e, r)
        });
        assert!(inner.is_ok());
        assert!(d.has_contract(&id("b")));
        (d, Err(7))
    });
    assert_eq!(r, Err(7));
    assert!(!db.has_contract(&id("b")));
}

#[test]
fn commit_into_open_parent_is_not_durable() {
    let mut db = db();
    let a = sample(TypeSignature::IntType, TypeSignature::IntType);
    db.begin();
    db.begin();
    db.insert_contract(&id("b"), &a).unwrap();
    db.commit();
    assert!(db.has_contract(&id("b")));
    db.roll_back();
    assert!(!db.has_contract(&id("b")));
}
