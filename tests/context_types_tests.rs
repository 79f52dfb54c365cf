use deep_causality::{
    Contextoid, ContextoidType, Data, IndexError, Model, Observation, RelationKind, Root, Space, SpaceTime, Time,
    TimeScale,
};

type Node = ContextoidType<Data<u64>, Space<i64>, Time<i64>, SpaceTime<i64>, i64>;

#[test]
fn test_contextoid_type_accessors() {
    let root: Node = ContextoidType::Root(Root { id: 1 });
    assert_eq!(root.root(), Some(&Root { id: 1 }));
    assert!(root.dataoid().is_none());

    let data: Node = ContextoidType::Datoid(Data { id: 2, data: 7 });
    assert_eq!(data.dataoid(), Some(&Data { id: 2, data: 7 }));
    assert!(data.tempoid().is_none());

    let time: Node = ContextoidType::Tempoid(Time { id: 3, time_scale: TimeScale::Second, time_unit: 5 });
    assert_eq!(time.tempoid().unwrap().time_unit, 5);
    assert!(time.spaceiod().is_none());

    let space: Node = ContextoidType::Spaceoid(Space { id: 4, x: 1, y: 2, z: 3 });
    assert_eq!(space.spaceiod().unwrap().z, 3);
    assert!(space.space_tempoid().is_none());

    let st = SpaceTime { id: 5, time_scale: TimeScale::Minute, time_unit: 9, x: 1, y: 2, z: 3 };
    assert_eq!(*st.t(), 9);
    let space_time: Node = ContextoidType::SpaceTempoid(st);
    assert_eq!(space_time.space_tempoid().unwrap().id, 5);
    assert!(space_time.root().is_none());

    let node = Contextoid::new(42, space_time);
    assert_eq!(node.id, 42);
}

#[test]
fn test_small_records() {
    assert_ne!(RelationKind::Datial, RelationKind::Temporal);
    let e = IndexError::new("index 3 out of range".to_string());
    assert_eq!(e.to_string(), "IndexError: index 3 out of range");
    let o = Observation::new(1, 10, 20);
    assert_eq!(o.observed_effect, 20);
    let m: Model<u8, u8> = Model::new(3, "author", "about", None, 0, None);
    assert_eq!(m.id(), 3);
    assert_eq!(m.author, "author");
}
