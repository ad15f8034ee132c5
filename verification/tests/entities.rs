use haste_entities::entities::{Entity, EntityContainer, Error, FieldUpdate, FIELD_STATES_LIMIT};
use haste_entities::entityclasses::{ClassInfo, EntityClasses};
use haste_entities::fieldvalue::FieldValue;
use haste_entities::flattenedserializers::{
    FlattenedSerializer, FlattenedSerializerContainer, FlattenedSerializerField,
};
use std::rc::Rc;

fn leaf(name: u64) -> FlattenedSerializerField {
    FlattenedSerializerField {
        var_name_hash: name,
        var_type_hash: 0,
        decoder: 0,
        is_dynamic_array: false,
        children: Vec::new(),
    }
}

/// Class 0 has one field, class 1 an array of records, class 2 no schema.
fn tables() -> (EntityClasses, FlattenedSerializerContainer) {
    let health = FlattenedSerializer { serializer_name_hash: 100, fields: vec![leaf(1)] };
    let template = FlattenedSerializerField {
        var_name_hash: 3,
        var_type_hash: 0,
        decoder: 0,
        is_dynamic_array: false,
        children: vec![leaf(4)],
    };
    let items = FlattenedSerializerField {
        var_name_hash: 2,
        var_type_hash: 0,
        decoder: 0,
        is_dynamic_array: true,
        children: vec![template],
    };
    let bag = FlattenedSerializer { serializer_name_hash: 200, fields: vec![items] };
    let classes = EntityClasses {
        bits: 2,
        classes: vec![
            ClassInfo { network_name_hash: 100 },
            ClassInfo { network_name_hash: 200 },
            ClassInfo { network_name_hash: 300 },
        ],
    };
    let serializers =
        FlattenedSerializerContainer { serializers: vec![Rc::new(health), Rc::new(bag)] };
    (classes, serializers)
}

fn write(path: &[usize], value: FieldValue) -> FieldUpdate {
    FieldUpdate { path: path.to_vec(), value }
}

#[test]
fn create_then_update_single_scalar() {
    let (classes, serializers) = tables();
    let mut container = EntityContainer::new();
    let baseline = vec![write(&[0], FieldValue::U32(100))];
    let created = container.handle_create(5, 0, &classes, &serializers, Some(&baseline), &Vec::new());
    assert_eq!(created.unwrap().get_value(&[0]), Ok(&FieldValue::U32(100)));
    assert_eq!(container.get(&5).unwrap().get_value(&[0]), Ok(&FieldValue::U32(100)));
    let updated = container.handle_update(5, &vec![write(&[0], FieldValue::U32(75))]);
    assert_eq!(updated.unwrap().get_value(&[0]), Ok(&FieldValue::U32(75)));
    assert_eq!(container.get(&5).unwrap().get_value(&[0]), Ok(&FieldValue::U32(75)));
    // the cached baseline is as it was
    assert_eq!(container.get_baseline(&0).unwrap().get_value(&[0]), Ok(&FieldValue::U32(100)));
}

#[test]
fn created_entity_has_its_slot_and_the_schema_of_its_class() {
    let (classes, serializers) = tables();
    let mut container = EntityContainer::new();
    let entity = container.handle_create(9, 1, &classes, &serializers, None, &Vec::new()).unwrap();
    assert_eq!(entity.index(), 9);
    assert_eq!(entity.serializer().serializer_name_hash, 200);
    let entity = container.handle_create(3, 0, &classes, &serializers, None, &Vec::new()).unwrap();
    assert_eq!(entity.index(), 3);
    assert_eq!(entity.serializer().serializer_name_hash, 100);
    // updates and records for other slots leave it there
    assert!(container.handle_update(3, &vec![write(&[0], FieldValue::U8(1))]).is_ok());
    assert!(container.handle_delete(3).is_ok());
    let entity = container.get(&9).unwrap();
    assert_eq!(entity.index(), 9);
    assert_eq!(entity.serializer().serializer_name_hash, 200);
}

#[test]
fn dynamic_array_descent() {
    let (classes, serializers) = tables();
    let schema = serializers.by_name_hash(200).unwrap();
    let (field, _) = schema.resolve(&[0, 3, 0]).unwrap();
    assert_eq!(field.var_name_hash, 4);
    let mut container = EntityContainer::new();
    let delta = vec![write(&[0, 3, 0], FieldValue::U32(42))];
    let entity = container.handle_create(1, 1, &classes, &serializers, None, &delta).unwrap();
    assert_eq!(entity.get_value(&[0, 3, 0]), Ok(&FieldValue::U32(42)));
    assert_eq!(entity.get_value(&[0, 3]), Err(Error::FieldValueNotExist));
    assert_eq!(entity.get_value(&[0, 2, 0]), Err(Error::FieldValueNotExist));
}

#[test]
fn baseline_then_delta() {
    let (classes, serializers) = tables();
    let mut container = EntityContainer::new();
    let baseline = vec![
        write(&[0], FieldValue::U32(1)),
        write(&[1], FieldValue::U32(2)),
        write(&[1], FieldValue::U32(3)),
        write(&[2, 0], FieldValue::U32(4)),
    ];
    let delta = vec![
        write(&[1], FieldValue::U32(20)),
        write(&[3], FieldValue::U32(30)),
        write(&[3], FieldValue::U32(31)),
    ];
    let entity =
        container.handle_create(0, 0, &classes, &serializers, Some(&baseline), &delta).unwrap();
    // written in the baseline only
    assert_eq!(entity.get_value(&[0]), Ok(&FieldValue::U32(1)));
    assert_eq!(entity.get_value(&[2, 0]), Ok(&FieldValue::U32(4)));
    // written in the delta
    assert_eq!(entity.get_value(&[1]), Ok(&FieldValue::U32(20)));
    assert_eq!(entity.get_value(&[3]), Ok(&FieldValue::U32(31)));
    // written in neither
    assert_eq!(entity.get_value(&[4]), Err(Error::FieldValueNotExist));
    assert_eq!(entity.get_value(&[2]), Err(Error::FieldValueNotExist));
    assert_eq!(entity.get_value(&[]), Err(Error::FieldValueNotExist));
    let cached = container.get_baseline(&0).unwrap();
    assert_eq!(cached.get_value(&[1]), Ok(&FieldValue::U32(3)));
    assert_eq!(cached.get_value(&[3]), Err(Error::FieldValueNotExist));
}

#[test]
fn baseline_sharing() {
    let (classes, serializers) = tables();
    let mut container = EntityContainer::new();
    let baseline = vec![write(&[0], FieldValue::U32(100)), write(&[9], FieldValue::Bool(true))];
    assert!(container.handle_create(7, 0, &classes, &serializers, Some(&baseline), &Vec::new()).is_ok());
    assert!(container.handle_create(9, 0, &classes, &serializers, None, &Vec::new()).is_ok());
    let a = container.get(&7).unwrap();
    let b = container.get(&9).unwrap();
    for path in [&[0usize][..], &[9], &[1], &[0, 0]] {
        assert_eq!(a.get_value(path), b.get_value(path));
    }
    assert_eq!(b.get_value(&[0]), Ok(&FieldValue::U32(100)));
    assert_eq!(b.get_value(&[9]), Ok(&FieldValue::Bool(true)));
}

#[test]
fn baseline_is_read_once_per_class() {
    let (classes, serializers) = tables();
    let mut container = EntityContainer::new();
    assert!(container.get_baseline(&0).is_none());
    let first = vec![write(&[0], FieldValue::U32(100))];
    assert!(container.handle_create(1, 0, &classes, &serializers, Some(&first), &Vec::new()).is_ok());
    assert!(container.get_baseline(&0).is_some());
    // whatever is handed in for the class from now on is not looked at
    let other = vec![write(&[0], FieldValue::U32(555)), write(&[1], FieldValue::U32(556))];
    let second =
        container.handle_create(2, 0, &classes, &serializers, Some(&other), &Vec::new()).unwrap();
    assert_eq!(second.get_value(&[0]), Ok(&FieldValue::U32(100)));
    assert_eq!(second.get_value(&[1]), Err(Error::FieldValueNotExist));
    assert_eq!(container.get_baseline(&0).unwrap().get_value(&[0]), Ok(&FieldValue::U32(100)));
    // another class has a baseline of its own
    assert!(container.get_baseline(&1).is_none());
}

#[test]
fn update_of_one_entity_leaves_the_others_of_its_class() {
    let (classes, serializers) = tables();
    let mut container = EntityContainer::new();
    let baseline = vec![write(&[0], FieldValue::U32(100))];
    assert!(container.handle_create(1, 0, &classes, &serializers, Some(&baseline), &Vec::new()).is_ok());
    assert!(container.handle_update(1, &vec![write(&[0], FieldValue::U32(75))]).is_ok());
    let second = container.handle_create(2, 0, &classes, &serializers, None, &Vec::new()).unwrap();
    assert_eq!(second.get_value(&[0]), Ok(&FieldValue::U32(100)));
    assert!(container.handle_update(2, &vec![write(&[0], FieldValue::U32(50))]).is_ok());
    assert_eq!(container.get(&1).unwrap().get_value(&[0]), Ok(&FieldValue::U32(75)));
    assert_eq!(container.get(&2).unwrap().get_value(&[0]), Ok(&FieldValue::U32(50)));
}

#[test]
fn clear_then_reuse() {
    let (classes, serializers) = tables();
    let mut container = EntityContainer::new();
    assert!(container.is_empty());
    let baseline = vec![write(&[0], FieldValue::U32(100)), write(&[40], FieldValue::U32(1))];
    for slot in 0..10 {
        let class_id = slot % 2;
        assert!(container
            .handle_create(slot, class_id, &classes, &serializers, Some(&baseline), &Vec::new())
            .is_ok());
    }
    assert!(!container.is_empty());
    assert_eq!(container.iter().len(), 10);
    assert_eq!(container.iter_baselines().len(), 2);
    container.clear();
    assert!(container.is_empty());
    assert!(container.iter().is_empty());
    assert!(container.iter_baselines().is_empty());
    assert!(container.get(&0).is_none());
    assert!(container.get_baseline(&0).is_none());
    let other = vec![write(&[0], FieldValue::U32(7))];
    for slot in 0..10 {
        let class_id = slot % 2;
        let entity = container
            .handle_create(slot, class_id, &classes, &serializers, Some(&other), &Vec::new())
            .unwrap();
        // the baselines of before the clear are gone
        assert_eq!(entity.get_value(&[0]), Ok(&FieldValue::U32(7)));
        assert_eq!(entity.get_value(&[40]), Err(Error::FieldValueNotExist));
    }
    assert_eq!(container.iter().len(), 10);
}

#[test]
fn create_replaces_the_occupant_of_the_slot() {
    let (classes, serializers) = tables();
    let mut container = EntityContainer::new();
    let delta = vec![write(&[0], FieldValue::U32(1))];
    assert!(container.handle_create(4, 0, &classes, &serializers, None, &delta).is_ok());
    let entity = container.handle_create(4, 1, &classes, &serializers, None, &Vec::new()).unwrap();
    assert_eq!(entity.serializer().serializer_name_hash, 200);
    assert_eq!(entity.get_value(&[0]), Err(Error::FieldValueNotExist));
    assert_eq!(container.iter().len(), 1);
}

#[test]
fn delete_removes_and_returns() {
    let (classes, serializers) = tables();
    let mut container = EntityContainer::new();
    let delta = vec![write(&[0], FieldValue::U32(1))];
    assert!(container.handle_create(4, 0, &classes, &serializers, None, &delta).is_ok());
    assert!(container.handle_create(5, 0, &classes, &serializers, None, &Vec::new()).is_ok());
    let gone = container.handle_delete(4).unwrap();
    assert_eq!(gone.index(), 4);
    assert_eq!(gone.get_value(&[0]), Ok(&FieldValue::U32(1)));
    assert!(container.get(&4).is_none());
    assert!(container.get(&5).is_some());
    assert!(!container.is_empty());
    assert!(container.handle_delete(5).is_ok());
    assert!(container.is_empty());
    // the baseline outlives the entities
    assert!(container.get_baseline(&0).is_some());
}

#[test]
fn unknown_slot() {
    let (classes, serializers) = tables();
    let mut container = EntityContainer::new();
    assert_eq!(container.handle_update(1, &Vec::new()).err(), Some(Error::UnknownSlot));
    assert_eq!(container.handle_delete(1).err(), Some(Error::UnknownSlot));
    assert!(container.handle_create(1, 0, &classes, &serializers, None, &Vec::new()).is_ok());
    assert_eq!(container.handle_update(2, &Vec::new()).err(), Some(Error::UnknownSlot));
    assert!(container.handle_delete(1).is_ok());
    assert_eq!(container.handle_delete(1).err(), Some(Error::UnknownSlot));
    assert_eq!(container.handle_update(1, &Vec::new()).err(), Some(Error::UnknownSlot));
}

#[test]
fn unknown_class_and_unknown_serializer() {
    let (classes, serializers) = tables();
    let mut container = EntityContainer::new();
    let none = Vec::new();
    assert_eq!(
        container.handle_create(1, 3, &classes, &serializers, None, &none).err(),
        Some(Error::UnknownClass)
    );
    assert_eq!(
        container.handle_create(1, -1, &classes, &serializers, None, &none).err(),
        Some(Error::UnknownClass)
    );
    assert_eq!(
        container.handle_create(1, 2, &classes, &serializers, None, &none).err(),
        Some(Error::UnknownSerializer)
    );
    assert!(container.is_empty());
    assert!(container.iter_baselines().is_empty());
}

#[test]
fn create_fails_when_the_arena_has_no_room() {
    let (classes, serializers) = tables();
    let mut container = EntityContainer::new();
    let too_far = vec![write(&[FIELD_STATES_LIMIT], FieldValue::U8(1))];
    assert_eq!(
        container.handle_create(1, 0, &classes, &serializers, None, &too_far).err(),
        Some(Error::AllocExhausted)
    );
    assert!(container.get(&1).is_none());
    assert_eq!(
        container.handle_create(2, 1, &classes, &serializers, Some(&too_far), &Vec::new()).err(),
        Some(Error::AllocExhausted)
    );
    assert!(container.is_empty());
    assert!(container.get_baseline(&1).is_none());
    // the last index that fits
    let far = vec![write(&[FIELD_STATES_LIMIT - 1], FieldValue::U8(1))];
    let entity = container.handle_create(3, 0, &classes, &serializers, None, &far).unwrap();
    assert_eq!(entity.get_value(&[FIELD_STATES_LIMIT - 1]), Ok(&FieldValue::U8(1)));
}

#[test]
fn update_that_runs_out_keeps_the_writes_before() {
    let (classes, serializers) = tables();
    let mut container = EntityContainer::new();
    let baseline = vec![write(&[0], FieldValue::U32(100))];
    assert!(container.handle_create(1, 0, &classes, &serializers, Some(&baseline), &Vec::new()).is_ok());
    let delta = vec![
        write(&[0], FieldValue::U32(1)),
        write(&[1, FIELD_STATES_LIMIT], FieldValue::U32(2)),
        write(&[2], FieldValue::U32(3)),
    ];
    assert_eq!(container.handle_update(1, &delta).err(), Some(Error::AllocExhausted));
    let entity = container.get(&1).unwrap();
    assert_eq!(entity.get_value(&[0]), Ok(&FieldValue::U32(1)));
    assert_eq!(entity.get_value(&[2]), Err(Error::FieldValueNotExist));
    assert_eq!(entity.index(), 1);
}

#[test]
fn iter_hands_out_every_entity_once() {
    let (classes, serializers) = tables();
    let mut container = EntityContainer::new();
    for slot in [12, 3, 16383, 0, 77] {
        let delta = vec![write(&[0], FieldValue::I32(slot))];
        assert!(container.handle_create(slot, 0, &classes, &serializers, None, &delta).is_ok());
    }
    assert!(container.handle_create(900, 1, &classes, &serializers, None, &Vec::new()).is_ok());
    assert!(container.handle_delete(3).is_ok());
    let mut seen: Vec<i32> = Vec::new();
    for (slot, entity) in container.iter() {
        assert_eq!(entity.index(), slot);
        if slot != 900 {
            assert_eq!(entity.get_value(&[0]), Ok(&FieldValue::I32(slot)));
        }
        seen.push(slot);
    }
    seen.sort();
    assert_eq!(seen, vec![0, 12, 77, 900, 16383]);
    let mut cached: Vec<i32> = container.iter_baselines().iter().map(|pair| pair.0).collect();
    cached.sort();
    assert_eq!(cached, vec![0, 1]);
}

#[test]
fn entity_parse_applies_writes_in_order() {
    let schema = Rc::new(FlattenedSerializer { serializer_name_hash: 1, fields: Vec::new() });
    let mut entity = Entity::new(42, schema);
    assert_eq!(entity.index(), 42);
    assert_eq!(entity.get_value(&[0]), Err(Error::FieldValueNotExist));
    let updates = vec![
        write(&[0], FieldValue::U8(1)),
        write(&[0, 1], FieldValue::U8(2)),
        write(&[0], FieldValue::U8(3)),
        write(&[], FieldValue::U8(4)),
    ];
    assert_eq!(entity.parse(&updates), Ok(()));
    assert_eq!(entity.get_value(&[0]), Ok(&FieldValue::U8(3)));
    assert_eq!(entity.get_value(&[0, 1]), Ok(&FieldValue::U8(2)));
    assert_eq!(entity.get_value(&[]), Ok(&FieldValue::U8(4)));
    assert_eq!(entity.parse(&Vec::new()), Ok(()));
    assert_eq!(entity.get_value(&[0]), Ok(&FieldValue::U8(3)));
}

#[test]
fn entity_duplicate_is_independent() {
    let schema = Rc::new(FlattenedSerializer { serializer_name_hash: 1, fields: Vec::new() });
    let other = Rc::new(FlattenedSerializer { serializer_name_hash: 2, fields: Vec::new() });
    let mut entity = Entity::new(1, schema);
    assert_eq!(entity.parse(&vec![write(&[0, 3], FieldValue::U8(1))]), Ok(()));
    let mut copy = entity.duplicate_as(2, other);
    assert_eq!(copy.index(), 2);
    assert_eq!(copy.serializer().serializer_name_hash, 2);
    assert_eq!(copy.get_value(&[0, 3]), Ok(&FieldValue::U8(1)));
    assert_eq!(copy.parse(&vec![write(&[0, 3], FieldValue::U8(9)), write(&[0, 20], FieldValue::U8(8))]), Ok(()));
    assert_eq!(entity.parse(&vec![write(&[5], FieldValue::U8(7))]), Ok(()));
    assert_eq!(entity.get_value(&[0, 3]), Ok(&FieldValue::U8(1)));
    assert_eq!(entity.get_value(&[0, 20]), Err(Error::FieldValueNotExist));
    assert_eq!(entity.get_value(&[5]), Ok(&FieldValue::U8(7)));
    assert_eq!(copy.get_value(&[0, 3]), Ok(&FieldValue::U8(9)));
    assert_eq!(copy.get_value(&[0, 20]), Ok(&FieldValue::U8(8)));
    assert_eq!(copy.get_value(&[5]), Err(Error::FieldValueNotExist));
    assert_eq!(entity.index(), 1);
    assert_eq!(entity.serializer().serializer_name_hash, 1);
}

#[test]
fn entity_parse_that_runs_out() {
    let schema = Rc::new(FlattenedSerializer { serializer_name_hash: 1, fields: Vec::new() });
    let mut entity = Entity::new(1, schema);
    let updates = vec![
        write(&[1], FieldValue::U8(1)),
        write(&[usize::MAX], FieldValue::U8(2)),
        write(&[2], FieldValue::U8(3)),
    ];
    assert_eq!(entity.parse(&updates), Err(Error::AllocExhausted));
    assert_eq!(entity.get_value(&[1]), Ok(&FieldValue::U8(1)));
    assert_eq!(entity.get_value(&[2]), Err(Error::FieldValueNotExist));
}

#[test]
fn field_value_conversions() {
    assert_eq!(FieldValue::Bool(true).try_into_bool(), Ok(true));
    assert_eq!(FieldValue::I32(-5).try_into_i32(), Ok(-5));
    assert_eq!(FieldValue::I64(i64::MIN).try_into_i64(), Ok(i64::MIN));
    assert_eq!(FieldValue::U32(75).try_into_u32(), Ok(75));
    assert_eq!(FieldValue::U64(u64::MAX).try_into_u64(), Ok(u64::MAX));
    assert_eq!(FieldValue::U32(1).try_into_bool(), Err(Error::FieldValueInvalidConversion));
    assert_eq!(FieldValue::I64(1).try_into_i32(), Err(Error::FieldValueInvalidConversion));
    assert_eq!(FieldValue::I32(1).try_into_i64(), Err(Error::FieldValueInvalidConversion));
    assert_eq!(FieldValue::U64(1).try_into_u32(), Err(Error::FieldValueInvalidConversion));
    assert_eq!(FieldValue::Handle(1).try_into_u64(), Err(Error::FieldValueInvalidConversion));
    assert_eq!(FieldValue::Bool(true).try_into_u32(), Err(Error::FieldValueInvalidConversion));
}

#[test]
fn read_then_convert() {
    let (classes, serializers) = tables();
    let mut container = EntityContainer::new();
    let delta = vec![write(&[0], FieldValue::U32(75))];
    let entity = container.handle_create(1, 0, &classes, &serializers, None, &delta).unwrap();
    assert_eq!(entity.get_value(&[0]).and_then(|v| v.try_into_u32()), Ok(75));
    assert_eq!(
        entity.get_value(&[0]).and_then(|v| v.try_into_bool()),
        Err(Error::FieldValueInvalidConversion)
    );
    assert_eq!(
        entity.get_value(&[1]).and_then(|v| v.try_into_u32()),
        Err(Error::FieldValueNotExist)
    );
}
