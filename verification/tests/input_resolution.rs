use epubimg::inputs::{resolve_inputs, ConfigError, InputItem};

#[test]
fn no_inputs_is_a_configuration_error() {
    let r = resolve_inputs(Vec::new());
    assert!(matches!(r, Err(ConfigError::NoInputFiles)));
}

#[test]
fn unreadable_paths_alone_are_a_configuration_error() {
    let r = resolve_inputs(vec![InputItem::Unreadable, InputItem::Unreadable]);
    assert!(matches!(r, Err(ConfigError::NoInputFiles)));
}

#[test]
fn a_directory_expands_to_its_immediate_children_only() {
    // The children are taken as given: a child that is itself a directory
    // stays one path and is not recursed into.
    let r = resolve_inputs(vec![InputItem::Dir(vec![
        "d/a.zip".to_string(),
        "d/sub".to_string(),
    ])])
    .unwrap();
    assert_eq!(r, vec!["d/a.zip".to_string(), "d/sub".to_string()]);
}

#[test]
fn input_order_is_kept() {
    let items = vec![
        InputItem::File("a.zip".to_string()),
        InputItem::Dir(vec!["d/b.zip".to_string(), "d/c.zip".to_string()]),
        InputItem::Unreadable,
        InputItem::File("e.zip".to_string()),
    ];
    let r = resolve_inputs(items).unwrap();
    assert_eq!(
        r,
        vec![
            "a.zip".to_string(),
            "d/b.zip".to_string(),
            "d/c.zip".to_string(),
            "e.zip".to_string(),
        ]
    );
}

#[test]
fn an_empty_directory_contributes_nothing() {
    let r = resolve_inputs(vec![
        InputItem::Dir(Vec::new()),
        InputItem::File("a.zip".to_string()),
    ])
    .unwrap();
    assert_eq!(r, vec!["a.zip".to_string()]);
}
