use enum_rotate_gen::decl::{MemberDecl, TypeShape};
use enum_rotate_gen::generate;
use enum_rotate_gen::mapping::RotationMapping;

fn season_mapping(annotations: &[&str]) -> RotationMapping {
    let members = vec!["Spring", "Summer", "Autumn", "Winter"]
        .into_iter()
        .map(|name| MemberDecl { name: name.to_string(), payload_free: true })
        .collect();
    let shape = TypeShape::Enumeration { members };
    let annotations: Vec<String> = annotations.iter().map(|a| a.to_string()).collect();
    generate("Season", &shape, &annotations).unwrap()
}

#[test]
fn successor_and_predecessor_are_mutual_inverses() {
    let mapping = season_mapping(&[]);
    for m in mapping.canonical_sequence() {
        assert_eq!(mapping.predecessor(&mapping.successor(&m)), m);
        assert_eq!(mapping.successor(&mapping.predecessor(&m)), m);
    }
}

#[test]
fn successor_composed_n_times_is_the_identity() {
    let mapping = season_mapping(&[]);
    let n = mapping.member_count();
    for m in mapping.canonical_sequence() {
        let mut current = m.clone();
        for step in 1..n {
            current = mapping.successor(&current);
            assert_ne!(current, m, "cycle closed after {} steps, not {}", step, n);
        }
        current = mapping.successor(&current);
        assert_eq!(current, m);
    }
}

#[test]
fn annotated_order_forms_one_cycle_too() {
    let mapping = season_mapping(&["#[iteration_order(Winter, Summer, Spring, Autumn)]"]);
    assert_eq!(
        mapping.canonical_sequence(),
        vec!["Winter", "Summer", "Spring", "Autumn"]
    );
    let n = mapping.member_count();
    let mut current = "Summer".to_string();
    for _ in 0..n {
        current = mapping.successor(&current);
    }
    assert_eq!(current, "Summer");
    assert_eq!(mapping.successor("Autumn"), "Winter");
    assert_eq!(mapping.predecessor("Winter"), "Autumn");
}

#[test]
fn sequence_from_rotates_the_canonical_order() {
    let mapping = season_mapping(&[]);
    let canonical = mapping.canonical_sequence();
    let n = canonical.len();
    for (i, m) in canonical.iter().enumerate() {
        let run = mapping.sequence_from(m);
        assert_eq!(run.len(), n);
        assert_eq!(&run[0], m);
        let mut rotated = canonical.clone();
        rotated.rotate_left(i);
        assert_eq!(run, rotated);
        for member in &canonical {
            assert_eq!(run.iter().filter(|x| x == &member).count(), 1);
        }
    }
}
