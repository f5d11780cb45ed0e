use loro_core::container::{Container, ContainerID, ContainerIdRaw, ContainerType, SequenceContainer};
use loro_core::span::IdSpan;
use loro_core::tracker::effects::Effect;
use loro_core::version::{IdSpanVector, VersionVector};
use loro_core::y_span::YSpan;
use loro_core::id::ID;

#[test]
fn root_and_normal_identifiers() {
    let root = ContainerID::new_root("notes", ContainerType::Text);
    assert!(root.is_root());
    assert!(!root.is_normal());
    assert_eq!(root.name(), "notes");
    assert_eq!(root.container_type(), ContainerType::Text);

    let normal = ContainerID::new_normal(ID::new(3, 9), ContainerType::List);
    assert!(normal.is_normal());
    assert!(!normal.is_root());
    assert_eq!(normal.container_type(), ContainerType::List);
    assert_eq!(normal, ContainerID::Normal { id: ID::new(3, 9), container_type: ContainerType::List });
}

#[test]
fn the_kind_is_part_of_the_identifier() {
    let text = ContainerID::new_root("a", ContainerType::Text);
    let list = ContainerID::new_root("a", ContainerType::List);
    let map = ContainerID::new_root("a", ContainerType::Mapping);
    assert_ne!(text, list);
    assert_ne!(text, map);
    assert_eq!(text, ContainerID::new_root("a", ContainerType::Text));
}

#[test]
fn raw_identifier_with_type() {
    let raw = ContainerIdRaw::from_name("doc");
    assert_eq!(raw.with_type(ContainerType::Mapping), ContainerID::new_root("doc", ContainerType::Mapping));
    let raw = ContainerIdRaw::from(ID::new(1, 2));
    assert_eq!(raw.with_type(ContainerType::Text), ContainerID::new_normal(ID::new(1, 2), ContainerType::Text));
    let cid = ContainerID::new_root("x", ContainerType::List);
    let raw = ContainerIdRaw::from_container_id(&cid);
    assert_eq!(raw.with_type(ContainerType::Text), ContainerID::new_root("x", ContainerType::Text));
    let raw = ContainerIdRaw::from(cid);
    assert_eq!(raw.with_type(ContainerType::List), ContainerID::new_root("x", ContainerType::List));
}

#[test]
fn a_sequence_container_follows_versions() {
    let mut c = SequenceContainer::new(ContainerID::new_root("list", ContainerType::List), 1);
    assert_eq!(c.type_(), ContainerType::List);
    assert!(c.id().is_root());
    c.track_apply(YSpan::new(ID::new(1, 0), 3, None, None)).unwrap();
    c.track_apply(YSpan::new(ID::new(2, 0), 2, Some(ID::new(1, 2)), None)).unwrap();
    let mut tail = IdSpanVector::new();
    assert!(tail.push(IdSpan::new(2, 0, 2)));
    c.track_retreat(&tail);
    assert_eq!(c.tracker.visible_len(), 3);
    c.track_forward(&tail);
    assert_eq!(c.tracker.visible_len(), 5);
    let mut old = VersionVector::new();
    old.set_end(ID::new(1, 2));
    c.tracker_checkout(&old);
    assert_eq!(c.tracker.visible_len(), 2);
    let mut rest = IdSpanVector::new();
    assert!(rest.push(IdSpan::new(1, 2, 3)));
    assert!(rest.push(IdSpan::new(2, 0, 2)));
    let script = c.apply_tracked_effects_from(&old, &rest);
    assert_eq!(
        script,
        vec![
            Effect::Ins { pos: 2, content: IdSpan::new(1, 2, 3) },
            Effect::Ins { pos: 3, content: IdSpan::new(2, 0, 2) },
        ]
    );
    assert_eq!(c.tracker.visible_len(), 5);
}

#[test]
fn a_sequence_container_shows_its_visible_items() {
    let mut c = SequenceContainer::new(ContainerID::new_root("text", ContainerType::Text), 1);
    assert_eq!(c.get_value(), Vec::<IdSpan>::new());
    c.track_apply(YSpan::new(ID::new(1, 0), 3, None, None)).unwrap();
    c.track_apply(YSpan::new(ID::new(2, 0), 2, Some(ID::new(1, 0)), Some(ID::new(1, 1)))).unwrap();
    c.track_apply(YSpan::new(ID::new(1, 3), 2, Some(ID::new(1, 2)), None)).unwrap();
    assert_eq!(
        c.get_value(),
        vec![IdSpan::new(1, 0, 1), IdSpan::new(2, 0, 2), IdSpan::new(1, 1, 5)]
    );
    let mut middle = IdSpanVector::new();
    assert!(middle.push(IdSpan::new(2, 0, 2)));
    c.track_retreat(&middle);
    assert_eq!(c.get_value(), vec![IdSpan::new(1, 0, 5)]);
    c.track_forward(&middle);
    assert_eq!(
        c.get_value(),
        vec![IdSpan::new(1, 0, 1), IdSpan::new(2, 0, 2), IdSpan::new(1, 1, 5)]
    );
}
