use pipetool::item::{PipeType, PipeTypeHint};

#[test]
fn matches_hint_names_each_kind() {
    assert!(PipeTypeHint::Byte.matches_hint(&PipeType::Byte(1)));
    assert!(PipeTypeHint::Char.matches_hint(&PipeType::Char('x')));
    assert!(PipeTypeHint::Num.matches_hint(&PipeType::Num(0)));
    assert!(PipeTypeHint::Multi.matches_hint(&PipeType::Multi(vec![])));
    assert!(!PipeTypeHint::Byte.matches_hint(&PipeType::Char('x')));
    assert!(!PipeTypeHint::Char.matches_hint(&PipeType::Num(3)));
    assert!(!PipeTypeHint::Multi.matches_hint(&PipeType::Byte(1)));
}

#[test]
fn nothing_matches_no_item() {
    assert!(!PipeTypeHint::Nothing.matches_hint(&PipeType::Byte(1)));
    assert!(!PipeTypeHint::Nothing.matches_hint(&PipeType::Multi(vec![None])));
}

#[test]
fn accessors_return_what_is_held() {
    assert_eq!(PipeType::Byte(200).byte(), 200);
    assert_eq!(PipeType::Char('z').char(), 'z');
    assert_eq!(PipeType::Num(1.5f64.to_bits()).num(), 1.5f64.to_bits());
    let p = PipeType::Multi(vec![Some(PipeType::Byte(1)), None]).parallel();
    assert_eq!(p.len(), 2);
    assert!(matches!(p[0], Some(PipeType::Byte(1))));
    assert!(p[1].is_none());
}

#[test]
fn kind_names() {
    assert_eq!(PipeType::Byte(0).kind_name(), "byte");
    assert_eq!(PipeType::Char('a').kind_name(), "char");
    assert_eq!(PipeType::Num(0).kind_name(), "num");
    assert_eq!(PipeType::Multi(vec![]).kind_name(), "multi");
}

#[test]
fn same_type_of_plain_items() {
    assert!(PipeType::Byte(1).same_type(&PipeType::Byte(9)));
    assert!(!PipeType::Byte(1).same_type(&PipeType::Char('a')));
    assert!(PipeType::Char('a').same_type(&PipeType::Char('b')));
    assert!(PipeType::Num(0).same_type(&PipeType::Num(1)));
    assert!(!PipeType::Num(0).same_type(&PipeType::Byte(1)));
}

#[test]
fn same_type_of_groups_looks_at_present_members() {
    let bytes = PipeType::Multi(vec![Some(PipeType::Byte(1)), None, Some(PipeType::Byte(2))]);
    assert!(bytes.same_type(&PipeType::Byte(0)));
    assert!(!bytes.same_type(&PipeType::Char('a')));
    let mixed = PipeType::Multi(vec![Some(PipeType::Byte(1)), Some(PipeType::Char('a'))]);
    assert!(!mixed.same_type(&PipeType::Byte(0)));
    let empty = PipeType::Multi(vec![None, None]);
    assert!(empty.same_type(&PipeType::Num(0)));
    let nested = PipeType::Multi(vec![Some(PipeType::Multi(vec![Some(PipeType::Char('x'))]))]);
    assert!(nested.same_type(&PipeType::Char('y')));
    assert!(!nested.same_type(&PipeType::Byte(1)));
}
